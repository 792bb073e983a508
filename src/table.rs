use vstd::prelude::*;

use crate::config::{Directory, InputFile, URLFile};

verus! {

/// Which kind of node an identifier denotes.
#[derive(Clone, Copy, Debug, PartialEq, Eq, Structural)]
pub enum NodeKind {
    File,
    Directory,
}

/// A file node: its identifier, its size in bytes and the URL of its contents.
pub struct FileNode {
    pub ino: u64,
    pub size: u64,
    pub url: String,
}

/// A directory node: its identifier and its entries (name, identifier) in
/// declared order, one per name; a name given twice maps to its later entry.
pub struct DirNode {
    pub ino: u64,
    pub contents: Vec<(String, u64)>,
}

/// Permission bits of every node: read-only for all.
pub const PERM: u16 = 0o444;
/// Hard-link count of every node.
pub const NLINK: u32 = 1;
/// Owner user of every node.
pub const OWNER_UID: u32 = 1000;
/// Owner group of every node.
pub const OWNER_GID: u32 = 1000;
/// Block size used to count a file's blocks.
pub const BLOCK_SIZE: u64 = 512;
/// How long, in seconds, a caller may keep any attribute: the tree never changes.
pub const TTL_SECS: u64 = 1000000;

/// The attributes reported for a node. Timestamps are all zero.
#[derive(Clone, Copy, Debug, PartialEq, Eq, Structural)]
pub struct Attr {
    pub ino: u64,
    pub size: u64,
    pub blocks: u64,
    pub kind: NodeKind,
    pub perm: u16,
    pub nlink: u32,
    pub uid: u32,
    pub gid: u32,
    pub blksize: u32,
}

pub enum Node {
    DirNode(DirNode),
    FileNode(FileNode),
}

/// A node as a mathematical value.
pub enum NodeView {
    File { ino: nat, size: nat, url: Seq<char> },
    Dir { ino: nat, children: Seq<(Seq<char>, nat)> },
}

impl NodeView {
    pub open spec fn ino(self) -> nat {
        match self {
            NodeView::File { ino, .. } => ino,
            NodeView::Dir { ino, .. } => ino,
        }
    }
}

/// The attributes of a node: a file reports its size and `size / 512` blocks,
/// a directory size 0.
pub open spec fn attr_of(n: NodeView) -> Attr {
    let (ino, size, kind) = match n {
        NodeView::File { ino, size, .. } => (ino, size, NodeKind::File),
        NodeView::Dir { ino, .. } => (ino, 0nat, NodeKind::Directory),
    };
    Attr {
        ino: ino as u64,
        size: size as u64,
        blocks: (size / 512) as u64,
        kind,
        perm: 0o444,
        nlink: 1,
        uid: 1000,
        gid: 1000,
        blksize: 512,
    }
}

pub open spec fn kind_of(n: NodeView) -> NodeKind {
    match n {
        NodeView::File { .. } => NodeKind::File,
        NodeView::Dir { .. } => NodeKind::Directory,
    }
}

pub open spec fn entries_view(v: Seq<(String, u64)>) -> Seq<(Seq<char>, nat)> {
    v.map_values(|p: (String, u64)| (p.0@, p.1 as nat))
}

impl View for Node {
    type V = NodeView;

    open spec fn view(&self) -> NodeView {
        match self {
            Node::FileNode(f) => NodeView::File { ino: f.ino as nat, size: f.size as nat, url: f.url@ },
            Node::DirNode(d) => NodeView::Dir { ino: d.ino as nat, children: entries_view(d.contents@) },
        }
    }
}

impl Node {
    pub fn get_attr(&self) -> (r: Attr)
        ensures
            r == attr_of(self@),
    {
        match self {
            Node::DirNode(dir_node) => Attr {
                ino: dir_node.ino,
                size: 0,
                blocks: 0,
                kind: NodeKind::Directory,
                perm: PERM,
                nlink: NLINK,
                uid: OWNER_UID,
                gid: OWNER_GID,
                blksize: BLOCK_SIZE as u32,
            },
            Node::FileNode(file_node) => Attr {
                ino: file_node.ino,
                size: file_node.size,
                blocks: file_node.size / BLOCK_SIZE,
                kind: NodeKind::File,
                perm: PERM,
                nlink: NLINK,
                uid: OWNER_UID,
                gid: OWNER_GID,
                blksize: BLOCK_SIZE as u32,
            },
        }
    }

    pub fn filetype(&self) -> (r: NodeKind)
        ensures
            r == kind_of(self@),
    {
        match self {
            Node::DirNode(_) => NodeKind::Directory,
            Node::FileNode(_) => NodeKind::File,
        }
    }
}

pub open spec fn nodes_view(v: Seq<Node>) -> Seq<NodeView> {
    v.map_values(|n: Node| n@)
}

/// Number of nodes that one layout entry gives, itself included.
pub open spec fn entry_count(f: InputFile) -> nat
    decreases f,
{
    match f {
        InputFile::URLFile(_) => 1,
        InputFile::Directory(d) => 1 + forest_count(d.contents@),
    }
}

/// Number of nodes that a sequence of layout entries gives.
pub open spec fn forest_count(fs: Seq<InputFile>) -> nat
    decreases fs,
{
    if fs.len() == 0 {
        0
    } else {
        forest_count(fs.subrange(0, fs.len() - 1)) + entry_count(fs[fs.len() - 1])
    }
}

/// The (name, identifier) pairs of a sequence of sibling entries whose
/// numbering starts at `next`.
pub open spec fn forest_ids(fs: Seq<InputFile>, next: nat) -> Seq<(Seq<char>, nat)>
    decreases fs.len(),
{
    if fs.len() == 0 {
        seq![]
    } else {
        let pre = fs.subrange(0, fs.len() - 1);
        forest_ids(pre, next).push((fs[fs.len() - 1].spec_name(), next + forest_count(pre)))
    }
}

/// A later entry of `s` carries the same name as entry `j`.
pub open spec fn shadowed(s: Seq<(Seq<char>, nat)>, j: int) -> bool {
    exists|k: int| j < k < s.len() && #[trigger] s[k].0 == s[j].0
}

/// The entries of `s` from position `i` on that no later entry shadows.
pub open spec fn keep_from(s: Seq<(Seq<char>, nat)>, i: int) -> Seq<(Seq<char>, nat)>
    decreases s.len() - i,
{
    if i < 0 || i >= s.len() {
        seq![]
    } else if shadowed(s, i) {
        keep_from(s, i + 1)
    } else {
        seq![s[i]] + keep_from(s, i + 1)
    }
}

/// A directory's mapping from a sequence of (name, identifier) pairs: one
/// entry per name, mapping it to the identifier of its last occurrence, in
/// declared order.
pub open spec fn keep_last(s: Seq<(Seq<char>, nat)>) -> Seq<(Seq<char>, nat)> {
    keep_from(s, 0)
}

/// No two entries of `children` carry the same name.
pub open spec fn names_distinct(children: Seq<(Seq<char>, nat)>) -> bool {
    forall|a: int, b: int|
        0 <= a < children.len() && 0 <= b < children.len() && #[trigger] children[a].0
            == #[trigger] children[b].0 ==> a == b
}

/// The nodes of one entry in pre-order, numbered from `id`.
pub open spec fn entry_nodes(f: InputFile, id: nat) -> Seq<NodeView>
    decreases f,
{
    match f {
        InputFile::URLFile(u) => seq![NodeView::File { ino: id, size: u.size as nat, url: u.url@ }],
        InputFile::Directory(d) => seq![NodeView::Dir { ino: id, children: keep_last(forest_ids(d.contents@, id + 1)) }]
            + forest_nodes(d.contents@, id + 1),
    }
}

/// The nodes of a sequence of sibling entries in pre-order, numbered from `next`.
pub open spec fn forest_nodes(fs: Seq<InputFile>, next: nat) -> Seq<NodeView>
    decreases fs,
{
    if fs.len() == 0 {
        seq![]
    } else {
        let pre = fs.subrange(0, fs.len() - 1);
        forest_nodes(pre, next) + entry_nodes(fs[fs.len() - 1], next + forest_count(pre))
    }
}

/// The table built from a layout: the root directory, numbered 1, then its
/// entries in pre-order.
pub open spec fn table_model(files: Seq<InputFile>) -> Seq<NodeView> {
    seq![NodeView::Dir { ino: 1, children: keep_last(forest_ids(files, 2)) }] + forest_nodes(files, 2)
}


proof fn entry_count_positive(f: InputFile)
    ensures
        entry_count(f) >= 1,
{
}

/// A prefix of a sequence of entries gives no more nodes than the whole.
proof fn lemma_forest_count_prefix(fs: Seq<InputFile>, i: int)
    requires
        0 <= i <= fs.len(),
    ensures
        forest_count(fs.subrange(0, i)) <= forest_count(fs),
    decreases fs.len(),
{
    if i < fs.len() {
        let pre = fs.subrange(0, fs.len() - 1);
        assert(pre.subrange(0, i) =~= fs.subrange(0, i));
        lemma_forest_count_prefix(pre, i);
    } else {
        assert(fs.subrange(0, i) =~= fs);
    }
}

proof fn lemma_keep_from(s: Seq<(Seq<char>, nat)>, i: int)
    requires
        0 <= i <= s.len(),
    ensures
        keep_from(s, i).len() <= s.len() - i,
        forall|a: int| #![trigger keep_from(s, i)[a]] 0 <= a < keep_from(s, i).len() ==> exists|k: int| i <= k < s.len() && keep_from(s, i)[a] == #[trigger] s[k],
        names_distinct(keep_from(s, i)),
    decreases s.len() - i,
{
    if i < s.len() {
        lemma_keep_from(s, i + 1);
        let rest = keep_from(s, i + 1);
        let r = keep_from(s, i);
        if !shadowed(s, i) {
            assert forall|a: int| #![trigger r[a]] 0 <= a < r.len() implies exists|k: int| i <= k < s.len() && r[a] == #[trigger] s[k] by {
                if a == 0 {
                    assert(r[a] == s[i]);
                } else {
                    assert(r[a] == rest[a - 1]);
                }
            }
            assert forall|a: int, b: int|
                0 <= a < r.len() && 0 <= b < r.len() && #[trigger] r[a].0 == #[trigger] r[b].0 implies a == b by {
                if a > 0 && b > 0 {
                    assert(rest[a - 1].0 == rest[b - 1].0);
                } else if a != b {
                    let c = if a == 0 { b } else { a };
                    let k = choose|k: int| i + 1 <= k < s.len() && rest[c - 1] == #[trigger] s[k];
                    assert(r[c] == rest[c - 1]);
                    assert(s[k].0 == s[i].0);
                }
            }
        }
    }
}

/// Every identifier of `keep_last(s)` is one of `s`, it is no longer than `s`,
/// and its names are distinct.
proof fn lemma_keep_last(s: Seq<(Seq<char>, nat)>, lo: nat, hi: nat)
    requires
        forall|j: int| 0 <= j < s.len() ==> lo <= #[trigger] s[j].1 < hi,
        s.len() + lo <= hi,
    ensures
        children_within(NodeView::Dir { ino: 0, children: keep_last(s) }, lo, hi),
{
    lemma_keep_from(s, 0);
    let r = keep_last(s);
    assert forall|j: int| 0 <= j < r.len() implies lo <= #[trigger] r[j].1 < hi by {
        let k = choose|k: int| 0 <= k < s.len() && r[j] == #[trigger] s[k];
    }
}

/// Keeps, of the (name, identifier) pairs of `v`, one per name: the last, in
/// declared order.
pub(crate) fn keep_last_entries(v: Vec<(String, u64)>) -> (r: Vec<(String, u64)>)
    ensures
        entries_view(r@) == keep_last(entries_view(v@)),
{
    let ghost s = entries_view(v@);
    let mut out: Vec<(String, u64)> = Vec::new();
    let mut i: usize = 0;
    while i < v.len()
        invariant
            i <= v@.len(),
            s == entries_view(v@),
            entries_view(out@) + keep_from(s, i as int) == keep_from(s, 0),
        decreases v@.len() - i,
    {
        let mut later = false;
        let mut k: usize = i + 1;
        while k < v.len()
            invariant
                i < k <= v@.len(),
                s == entries_view(v@),
                later == exists|m: int| i < m < k && #[trigger] s[m].0 == s[i as int].0,
            decreases v@.len() - k,
        {
            if v[k].0 == v[i].0 {
                assert(s[k as int].0 == s[i as int].0);
                later = true;
            }
            k = k + 1;
        }
        assert(later == shadowed(s, i as int));
        let ghost before = out@;
        if !later {
            out.push((v[i].0.clone(), v[i].1));
            assert(entries_view(out@) =~= entries_view(before) + seq![s[i as int]]);
        }
        assert(entries_view(out@) + keep_from(s, i + 1) =~= keep_from(s, 0));
        i = i + 1;
    }
    assert(entries_view(out@) =~= keep_from(s, 0));
    out
}

/// Numbers `files` in pre-order from `*inode` on, appends their nodes to
/// `result`, and returns the (name, identifier) pairs of the entries of
/// `files` themselves, in declared order.
pub(crate) fn add_inodes(files: &Vec<InputFile>, inode: &mut u64, result: &mut Vec<Node>) -> (toplev: Vec<(String, u64)>)
    requires
        *old(inode) + forest_count(files@) <= u64::MAX,
    ensures
        *final(inode) == *old(inode) + forest_count(files@),
        nodes_view(final(result)@) == nodes_view(old(result)@) + forest_nodes(files@, *old(inode) as nat),
        entries_view(toplev@) == forest_ids(files@, *old(inode) as nat),
    decreases files@,
{
    let ghost start = *inode as nat;
    let mut toplev: Vec<(String, u64)> = Vec::new();
    let ghost result0 = nodes_view(result@);
    let mut i: usize = 0;
    while i < files.len()
        invariant
            0 <= i <= files@.len(),
            start + forest_count(files@) <= u64::MAX,
            *inode == start + forest_count(files@.subrange(0, i as int)),
            nodes_view(result@) == result0 + forest_nodes(files@.subrange(0, i as int), start),
            entries_view(toplev@) == forest_ids(files@.subrange(0, i as int), start),
        decreases files@.len() - i,
    {
        let ghost pre = files@.subrange(0, i as int);
        let ghost cur = files@.subrange(0, i as int + 1);
        assert(cur.subrange(0, cur.len() - 1) =~= pre);
        assert(cur[cur.len() - 1] == files@[i as int]);
        assert(forest_nodes(cur, start) == forest_nodes(pre, start) + entry_nodes(files@[i as int], start + forest_count(pre)));
        let ghost r_before = nodes_view(result@);
        proof {
            lemma_forest_count_prefix(files@, i as int + 1);
            entry_count_positive(files@[i as int]);
        }
        match &files[i] {
            InputFile::URLFile(urlfile) => {
                let id = *inode;
                result.push(Node::FileNode(FileNode { ino: id, size: urlfile.size as u64, url: urlfile.url.clone() }));
                toplev.push((urlfile.name.clone(), id));
                *inode = id + 1;
                assert(nodes_view(result@) =~= r_before + entry_nodes(files@[i as int], id as nat));
                assert(nodes_view(result@) =~= result0 + forest_nodes(cur, start));
                assert(entries_view(toplev@) =~= forest_ids(cur, start));
            }
            InputFile::Directory(dir) => {
                let id = *inode;
                *inode = id + 1;
                proof {
                    assert(decreases_to!(files@ => files@[i as int]));
                }
                let mut sub: Vec<Node> = Vec::new();
                let children = keep_last_entries(add_inodes(&dir.contents, inode, &mut sub));
                result.push(Node::DirNode(DirNode { ino: id, contents: children }));
                toplev.push((dir.name.clone(), id));
                let ghost before = result@;
                let ghost subv = sub@;
                result.append(&mut sub);
                assert(nodes_view(result@) =~= nodes_view(before) + nodes_view(subv));
                assert(nodes_view(before) =~= r_before.push(NodeView::Dir { ino: id as nat, children: keep_last(forest_ids(dir.contents@, (id + 1) as nat)) }));
                assert(nodes_view(result@) =~= r_before + entry_nodes(files@[i as int], id as nat));
                assert(nodes_view(result@) =~= result0 + forest_nodes(cur, start));
                assert(entries_view(toplev@) =~= forest_ids(cur, start));
            }
        }
        i = i + 1;
    }
    assert(files@.subrange(0, files@.len() as int) =~= files@);
    toplev
}


/// If `n` is a directory: its names are distinct, and every child identifier
/// lies in `[lo, hi)`.
pub open spec fn children_within(n: NodeView, lo: nat, hi: nat) -> bool {
    match n {
        NodeView::File { .. } => true,
        NodeView::Dir { children, .. } => (forall|j: int|
            0 <= j < children.len() ==> lo <= #[trigger] children[j].1 < hi) && children.len() + lo <= hi
            && names_distinct(children),
    }
}

/// `ns` is numbered consecutively from `first`, and every child identifier
/// it mentions lies in `[lo, hi)`.
pub open spec fn numbered(ns: Seq<NodeView>, first: nat, lo: nat, hi: nat) -> bool {
    &&& forall|i: int| 0 <= i < ns.len() ==> #[trigger] ns[i].ino() == first + i
    &&& forall|i: int| 0 <= i < ns.len() ==> children_within(#[trigger] ns[i], lo, hi)
}

/// A well-formed table: the root, numbered 1, is a directory; every node's
/// identifier is its 1-based position; every child identifier is in the table;
/// no directory holds a name twice.
pub open spec fn table_wf(t: Seq<NodeView>) -> bool {
    &&& t.len() >= 1
    &&& t[0] is Dir
    &&& numbered(t, 1, 1, t.len() + 1)
}

proof fn lemma_forest_ids(fs: Seq<InputFile>, next: nat)
    ensures
        forest_ids(fs, next).len() == fs.len(),
        fs.len() <= forest_count(fs),
        forall|j: int| 0 <= j < fs.len() ==> (#[trigger] forest_ids(fs, next)[j]).0 == fs[j].spec_name(),
        forall|j: int| 0 <= j < fs.len() ==> next <= (#[trigger] forest_ids(fs, next)[j]).1 < next + forest_count(fs),
    decreases fs.len(),
{
    if fs.len() > 0 {
        let pre = fs.subrange(0, fs.len() - 1);
        lemma_forest_ids(pre, next);
        entry_count_positive(fs[fs.len() - 1]);
        assert forall|j: int| 0 <= j < pre.len() implies #[trigger] fs[j] == pre[j] by {}
    }
}

proof fn lemma_entry_nodes(f: InputFile, id: nat)
    ensures
        entry_nodes(f, id).len() == entry_count(f),
        numbered(entry_nodes(f, id), id, id, id + entry_count(f)),
    decreases f,
{
    match f {
        InputFile::URLFile(_) => {},
        InputFile::Directory(d) => {
            let fs = d.contents@;
            lemma_forest_nodes(fs, id + 1);
            lemma_forest_ids(fs, id + 1);
            let ns = entry_nodes(f, id);
            let rest = forest_nodes(fs, id + 1);
            assert forall|i: int| 0 < i < ns.len() implies #[trigger] ns[i] == rest[i - 1] by {}
            lemma_keep_last(forest_ids(fs, id + 1), id + 1, id + entry_count(f));
            assert(children_within(ns[0], id, id + entry_count(f)));
            assert forall|i: int| 0 <= i < ns.len() implies children_within(#[trigger] ns[i], id, id + entry_count(f)) by {
                if i > 0 {
                    assert(children_within(rest[i - 1], id + 1, id + 1 + forest_count(fs)));
                }
            }
        },
    }
}

proof fn lemma_forest_nodes(fs: Seq<InputFile>, next: nat)
    ensures
        forest_nodes(fs, next).len() == forest_count(fs),
        numbered(forest_nodes(fs, next), next, next, next + forest_count(fs)),
    decreases fs,
{
    if fs.len() > 0 {
        let pre = fs.subrange(0, fs.len() - 1);
        let last = fs[fs.len() - 1];
        let mid = next + forest_count(pre);
        lemma_forest_nodes(pre, next);
        lemma_entry_nodes(last, mid);
        let a = forest_nodes(pre, next);
        let b = entry_nodes(last, mid);
        let ns = forest_nodes(fs, next);
        assert forall|i: int| 0 <= i < ns.len() implies #[trigger] ns[i].ino() == next + i
            && children_within(ns[i], next, next + forest_count(fs)) by {
            if i < a.len() {
                assert(ns[i] == a[i]);
                assert(children_within(a[i], next, mid));
            } else {
                assert(ns[i] == b[i - a.len()]);
                assert(children_within(b[i - a.len()], mid, mid + entry_count(last)));
            }
        }
    }
}

/// Every table built from a layout is well formed: the root is the directory
/// numbered 1, each node's identifier equals its 1-based position, and each
/// directory maps its names, each once, only to identifiers present in the table.
pub proof fn lemma_table_wf(files: Seq<InputFile>)
    ensures
        table_model(files).len() == 1 + forest_count(files),
        table_wf(table_model(files)),
{
    lemma_forest_nodes(files, 2);
    lemma_forest_ids(files, 2);
    lemma_keep_last(forest_ids(files, 2), 2, 2 + forest_count(files));
    let t = table_model(files);
    let rest = forest_nodes(files, 2);
    assert forall|i: int| 0 <= i < t.len() implies #[trigger] t[i].ino() == 1 + i
        && children_within(t[i], 1, t.len() + 1) by {
        if i > 0 {
            assert(t[i] == rest[i - 1]);
            assert(children_within(rest[i - 1], 2, 2 + forest_count(files)));
        }
    }
}

} // verus!
