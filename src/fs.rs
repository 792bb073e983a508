use vstd::prelude::*;

use crate::config::InputFile;
use crate::table::{
    add_inodes, attr_of, keep_last_entries, children_within, entries_view, forest_count, kind_of, lemma_table_wf, nodes_view, table_model, table_wf,
    Attr, DirNode, Node, NodeKind, NodeView,
};

verus! {

/// A read-only filesystem over a fixed table of nodes, whose file contents
/// are fetched from their URLs on first read and kept in memory after.
pub struct LazyHTTPFS {
    nodes: Vec<Node>,
    cache: Vec<(String, Vec<u8>)>,
}

/// The filesystem as a mathematical value: its node table, where identifier
/// `i` is at position `i - 1`, and its content cache, keyed by URL.
pub struct FsView {
    pub nodes: Seq<NodeView>,
    pub cache: Map<Seq<char>, Seq<u8>>,
}

pub open spec fn cache_has(c: Seq<(String, Vec<u8>)>, k: Seq<char>, i: int) -> bool {
    0 <= i < c.len() && c[i].0@ == k
}

pub open spec fn cache_map(c: Seq<(String, Vec<u8>)>) -> Map<Seq<char>, Seq<u8>> {
    Map::new(
        |k: Seq<char>| exists|i: int| cache_has(c, k, i),
        |k: Seq<char>| c[choose|i: int| cache_has(c, k, i)].1@,
    )
}

impl View for LazyHTTPFS {
    type V = FsView;

    closed spec fn view(&self) -> FsView {
        FsView { nodes: nodes_view(self.nodes@), cache: cache_map(self.cache@) }
    }
}

/// The node with identifier `i`, if any; identifier 0 is never valid.
pub open spec fn node_at(t: Seq<NodeView>, i: nat) -> Option<NodeView> {
    if 1 <= i <= t.len() {
        Some(t[i - 1])
    } else {
        None
    }
}

/// The attributes of the node with identifier `i`, if any.
pub open spec fn getattr_spec(t: Seq<NodeView>, i: nat) -> Option<Attr> {
    match node_at(t, i) {
        Some(n) => Some(attr_of(n)),
        None => None,
    }
}

/// `j` is the first position among `children` that holds `name`.
pub open spec fn first_with_name(children: Seq<(Seq<char>, nat)>, name: Seq<char>, j: int) -> bool {
    &&& 0 <= j < children.len()
    &&& children[j].0 == name
    &&& forall|k: int| 0 <= k < j ==> #[trigger] children[k].0 != name
}

/// What resolving `name` in the directory `parent` gives: the attributes of the
/// child that the first entry of that name maps to; nothing where `parent` is
/// no directory or holds no such name.
pub open spec fn lookup_spec(t: Seq<NodeView>, parent: nat, name: Seq<char>) -> Option<Attr> {
    match node_at(t, parent) {
        Some(NodeView::Dir { children, .. }) => if exists|j: int| first_with_name(children, name, j) {
            getattr_spec(t, children[choose|j: int| first_with_name(children, name, j)].1)
        } else {
            None
        },
        _ => None,
    }
}

/// One directory listing entry: the identifier it names, the offset at which a
/// listing resumes after it, its kind and its name.
pub struct DirEntry {
    pub ino: u64,
    pub offset: i64,
    pub kind: NodeKind,
    pub name: String,
}

pub struct EntryView {
    pub ino: nat,
    pub offset: int,
    pub kind: NodeKind,
    pub name: Seq<char>,
}

impl View for DirEntry {
    type V = EntryView;

    open spec fn view(&self) -> EntryView {
        EntryView { ino: self.ino as nat, offset: self.offset as int, kind: self.kind, name: self.name@ }
    }
}

pub open spec fn entries_of(v: Seq<DirEntry>) -> Seq<EntryView> {
    v.map_values(|e: DirEntry| e@)
}

/// The complete listing of directory `ino` with the given children: "." and
/// "..", both naming `ino` itself, then the children in declared order; the
/// entry at 0-based position `p` carries offset `p + 1`.
pub open spec fn full_listing(t: Seq<NodeView>, ino: nat, children: Seq<(Seq<char>, nat)>) -> Seq<EntryView> {
    seq![
        EntryView { ino, offset: 1, kind: NodeKind::Directory, name: seq!['.'] },
        EntryView { ino, offset: 2, kind: NodeKind::Directory, name: seq!['.', '.'] },
    ] + Seq::new(
        children.len(),
        |j: int|
            EntryView {
                ino: children[j].1,
                offset: j + 3,
                kind: kind_of(t[children[j].1 - 1]),
                name: children[j].0,
            },
    )
}

/// The entries of `s` from position `k` on.
pub open spec fn from_position<A>(s: Seq<A>, k: nat) -> Seq<A> {
    if k < s.len() {
        s.subrange(k as int, s.len() as int)
    } else {
        seq![]
    }
}

/// The listing of directory `ino` resumed at offset `k`: the entries of its
/// complete listing whose 0-based position is at least `k`; nothing where
/// `ino` is unknown or a file.
pub open spec fn listdir_spec(t: Seq<NodeView>, ino: nat, k: nat) -> Option<Seq<EntryView>> {
    match node_at(t, ino) {
        Some(NodeView::Dir { children, .. }) => Some(from_position(full_listing(t, ino, children), k)),
        _ => None,
    }
}

/// What a read of a file needs: its bytes from the requested offset on, its
/// URL to be fetched first, or nothing where the identifier names no file.
pub enum ReadReply {
    Data(Vec<u8>),
    Fetch(String),
    NotFound,
}

pub enum ReadView {
    Data(Seq<u8>),
    Fetch(Seq<char>),
    NotFound,
}

impl View for ReadReply {
    type V = ReadView;

    open spec fn view(&self) -> ReadView {
        match self {
            ReadReply::Data(d) => ReadView::Data(d@),
            ReadReply::Fetch(u) => ReadView::Fetch(u@),
            ReadReply::NotFound => ReadView::NotFound,
        }
    }
}

/// Reading file `ino` from byte `offset`: the cached bytes of its URL from that
/// offset on (none past the end), or a fetch of its URL where none are cached.
pub open spec fn read_spec(v: FsView, ino: nat, offset: nat) -> ReadView {
    match node_at(v.nodes, ino) {
        Some(NodeView::File { url, .. }) => if v.cache.contains_key(url) {
            ReadView::Data(from_position(v.cache[url], offset))
        } else {
            ReadView::Fetch(url)
        },
        _ => ReadView::NotFound,
    }
}

/// The filesystem once `body` was fetched for file `ino`: the body is cached
/// under the file's URL unless that URL already has an entry, which is never
/// replaced.
pub open spec fn store_spec(v: FsView, ino: nat, body: Seq<u8>) -> FsView {
    match node_at(v.nodes, ino) {
        Some(NodeView::File { url, .. }) => if v.cache.contains_key(url) {
            v
        } else {
            FsView { nodes: v.nodes, cache: v.cache.insert(url, body) }
        },
        _ => v,
    }
}

/// In a well-formed table, resolving the name of any entry of a directory
/// gives the same attributes as asking for the entry's identifier directly.
pub proof fn lemma_lookup_matches_getattr(t: Seq<NodeView>, d: nat, j: int)
    requires
        table_wf(t),
        node_at(t, d) matches Some(NodeView::Dir { children, .. }) && 0 <= j < children.len(),
    ensures
        node_at(t, d) matches Some(NodeView::Dir { children, .. }) && lookup_spec(t, d, children[j].0)
            == getattr_spec(t, children[j].1),
{
    if let Some(NodeView::Dir { children, .. }) = node_at(t, d) {
        assert(children_within(t[d - 1], 1, t.len() + 1));
        let name = children[j].0;
        assert(first_with_name(children, name, j));
        let m = choose|m: int| first_with_name(children, name, m);
        assert(children[m].0 == children[j].0);
    }
}

/// A listing of a directory resumed at offset `k` holds exactly the entries of
/// the complete listing whose 0-based position is at least `k`, in the same
/// order; the complete listing starts with "." and "..", both naming the
/// directory itself, and its entry at position `p` carries offset `p + 1`.
pub proof fn lemma_listing_resumes(t: Seq<NodeView>, ino: nat, k: nat)
    requires
        listdir_spec(t, ino, 0) is Some,
    ensures
        listdir_spec(t, ino, k) == Some(from_position(listdir_spec(t, ino, 0).unwrap(), k)),
        listdir_spec(t, ino, 0).unwrap().len() >= 2,
        listdir_spec(t, ino, 0).unwrap()[0] == (EntryView { ino, offset: 1, kind: NodeKind::Directory, name: seq!['.'] }),
        listdir_spec(t, ino, 0).unwrap()[1] == (EntryView { ino, offset: 2, kind: NodeKind::Directory, name: seq!['.', '.'] }),
        forall|p: int| 0 <= p < listdir_spec(t, ino, 0).unwrap().len() ==> #[trigger] listdir_spec(t, ino, 0).unwrap()[p].offset == p + 1,
{
    if let Some(NodeView::Dir { children, .. }) = node_at(t, ino) {
        let full = full_listing(t, ino, children);
        assert(from_position(full, 0) =~= full);
        assert(from_position(from_position(full, 0), k) =~= from_position(full, k));
    }
}

/// Once a read of file `ino` has asked for a fetch and the fetched body is
/// stored, every later read of that file, at any offset, is answered from the
/// cache with no further fetch; storing again changes nothing.
pub proof fn lemma_fetch_at_most_once(v: FsView, ino: nat, body: Seq<u8>, first: nat, later: nat, again: Seq<u8>)
    requires
        read_spec(v, ino, first) is Fetch,
    ensures
        read_spec(store_spec(v, ino, body), ino, later) == ReadView::Data(from_position(body, later)),
        store_spec(store_spec(v, ino, body), ino, again) == store_spec(v, ino, body),
{
}

/// The bytes of `data` from position `offset` on.
fn tail(data: &Vec<u8>, offset: u64) -> (r: Vec<u8>)
    ensures
        r@ == from_position(data@, offset as nat),
{
    let mut out: Vec<u8> = Vec::new();
    if offset < data.len() as u64 {
        let mut i: usize = offset as usize;
        while i < data.len()
            invariant
                offset <= i <= data@.len(),
                out@ == data@.subrange(offset as int, i as int),
            decreases data@.len() - i,
        {
            out.push(data[i]);
            assert(out@ =~= data@.subrange(offset as int, i + 1));
            i = i + 1;
        }
    }
    assert(out@ =~= from_position(data@, offset as nat));
    out
}

impl LazyHTTPFS {
    /// The node table is well formed and no URL is cached twice.
    pub open spec fn wf(&self) -> bool {
        &&& table_wf(self@.nodes)
        &&& self@.nodes.len() + 2 <= i64::MAX
        &&& self.cache_keys_unique()
    }

    pub closed spec fn cache_keys_unique(&self) -> bool {
        forall|i: int, j: int|
            0 <= i < self.cache@.len() && 0 <= j < self.cache@.len() && #[trigger] self.cache@[i].0@
                == #[trigger] self.cache@[j].0@ ==> i == j
    }

    /// Builds the filesystem for a layout: the root directory gets identifier 1
    /// and the entries follow in pre-order. The cache starts empty.
    pub fn new(files: Vec<InputFile>) -> (r: LazyHTTPFS)
        requires
            forest_count(files@) + 3 <= i64::MAX,
        ensures
            r.wf(),
            r@.nodes == table_model(files@),
            r@.cache == Map::<Seq<char>, Seq<u8>>::empty(),
    {
        let mut inode: u64 = 2;
        let mut rest: Vec<Node> = Vec::new();
        let children = keep_last_entries(add_inodes(&files, &mut inode, &mut rest));
        let mut nodes: Vec<Node> = Vec::new();
        nodes.push(Node::DirNode(DirNode { ino: 1, contents: children }));
        nodes.append(&mut rest);
        let r = LazyHTTPFS { nodes, cache: Vec::new() };
        proof {
            lemma_table_wf(files@);
            assert(nodes_view(r.nodes@) =~= table_model(files@));
            assert(cache_map(r.cache@) =~= Map::<Seq<char>, Seq<u8>>::empty());
        }
        r
    }

    pub fn get_inode(&self, i: u64) -> (r: Option<&Node>)
        ensures
            match r {
                Some(n) => node_at(self@.nodes, i as nat) == Some(n@),
                None => node_at(self@.nodes, i as nat) is None,
            },
    {
        if i == 0 || i > self.nodes.len() as u64 {
            None
        } else {
            let n = &self.nodes[(i - 1) as usize];
            assert(nodes_view(self.nodes@)[i - 1] == n@);
            Some(n)
        }
    }

    /// Resolves `name` in the directory `parent`: the attributes of the child
    /// it names, or `None` where `parent` is unknown, is a file, or holds no
    /// such name.
    pub fn lookup(&self, parent: u64, name: &str) -> (r: Option<Attr>)
        ensures
            r == lookup_spec(self@.nodes, parent as nat, name@),
    {
        let pn = self.get_inode(parent);
        match pn {
            Some(Node::DirNode(dir_node)) => {
                let key = name.to_owned();
                let ghost children = entries_view(dir_node.contents@);
                let mut j: usize = 0;
                while j < dir_node.contents.len()
                    invariant
                        0 <= j <= dir_node.contents@.len(),
                        children == entries_view(dir_node.contents@),
                        key@ == name@,
                        node_at(self@.nodes, parent as nat) == Some(NodeView::Dir { ino: dir_node.ino as nat, children }),
                        forall|k: int| 0 <= k < j ==> #[trigger] children[k].0 != name@,
                    decreases dir_node.contents@.len() - j,
                {
                    if dir_node.contents[j].0 == key {
                        assert(first_with_name(children, name@, j as int));
                        assert forall|m: int| first_with_name(children, name@, m) implies m == j by {
                            if m < j {
                                assert(children[m].0 != name@);
                            } else if m > j {
                                assert(children[j as int].0 != name@);
                            }
                        }
                        let id = dir_node.contents[j].1;
                        assert(children[j as int].1 == id as nat);
                        assert((choose|m: int| first_with_name(children, name@, m)) == j);
                        return match self.get_inode(id) {
                            Some(file) => Some(file.get_attr()),
                            None => None,
                        };
                    }
                    j = j + 1;
                }
                None
            },
            _ => None,
        }
    }

    /// Lists directory `ino` from offset `offset` on, or `None` where `ino` is
    /// unknown or a file.
    pub fn readdir(&self, ino: u64, offset: u64) -> (r: Option<Vec<DirEntry>>)
        requires
            self.wf(),
        ensures
            match r {
                Some(v) => listdir_spec(self@.nodes, ino as nat, offset as nat) == Some(entries_of(v@)),
                None => listdir_spec(self@.nodes, ino as nat, offset as nat) is None,
            },
    {
        let pn = self.get_inode(ino);
        match pn {
            Some(Node::DirNode(dir)) => {
                let ghost t = self@.nodes;
                let ghost children = entries_view(dir.contents@);
                let ghost full = full_listing(t, ino as nat, children);
                let n = dir.contents.len();
                proof {
                    assert(t[ino - 1] == NodeView::Dir { ino: dir.ino as nat, children });
                    assert(children_within(t[ino - 1], 1, t.len() + 1));
                }
                let mut out: Vec<DirEntry> = Vec::new();
                let end: u64 = n as u64 + 2;
                if offset < end {
                    let mut p: u64 = offset;
                    while p < end
                        invariant
                            offset <= p <= end,
                            end == n + 2,
                            n == dir.contents@.len(),
                            n + 2 <= i64::MAX,
                            self.wf(),
                            t == self@.nodes,
                            children == entries_view(dir.contents@),
                            full == full_listing(t, ino as nat, children),
                            children_within(NodeView::Dir { ino: dir.ino as nat, children }, 1, t.len() + 1),
                            entries_of(out@) == full.subrange(offset as int, p as int),
                        decreases n + 2 - p,
                    {
                        let e = if p < 2 {
                            let name = if p == 0 {
                                ".".to_owned()
                            } else {
                                "..".to_owned()
                            };
                            proof {
                                reveal_strlit(".");
                                reveal_strlit("..");
                            }
                            DirEntry { ino, offset: (p + 1) as i64, kind: NodeKind::Directory, name }
                        } else {
                            let id = dir.contents[(p - 2) as usize].1;
                            assert(children[p - 2].1 == id as nat);
                            assert(1 <= id <= t.len());
                            let kind = match self.get_inode(id) {
                                Some(node) => node.filetype(),
                                None => NodeKind::File,
                            };
                            assert(kind == kind_of(t[id - 1]));
                            DirEntry { ino: id, offset: (p + 1) as i64, kind, name: dir.contents[(p - 2) as usize].0.clone() }
                        };
                        let ghost before = out@;
                        out.push(e);
                        assert(entries_of(out@) =~= entries_of(before).push(e@));
                        assert(e@.name == full[p as int].name);
                        assert(e@ == full[p as int]);
                        assert(entries_of(out@) =~= full.subrange(offset as int, p + 1));
                        p = p + 1;
                    }
                }
                assert(entries_of(out@) =~= from_position(full, offset as nat));
                Some(out)
            },
            _ => None,
        }
    }

    proof fn lemma_cache_at(&self, i: int)
        requires
            self.cache_keys_unique(),
            0 <= i < self.cache@.len(),
        ensures
            self@.cache.contains_key(self.cache@[i].0@),
            self@.cache[self.cache@[i].0@] == self.cache@[i].1@,
    {
        let k = self.cache@[i].0@;
        assert(cache_has(self.cache@, k, i));
        let j = choose|j: int| cache_has(self.cache@, k, j);
        assert(self.cache@[j].0@ == self.cache@[i].0@);
    }

    /// The position in the cache of the entry for `url`, if there is one.
    fn cache_find(&self, url: &String) -> (r: Option<usize>)
        requires
            self.cache_keys_unique(),
        ensures
            match r {
                Some(i) => i < self.cache@.len() && self.cache@[i as int].0@ == url@
                    && self@.cache.contains_key(url@) && self@.cache[url@] == self.cache@[i as int].1@,
                None => !self@.cache.contains_key(url@),
            },
    {
        let mut i: usize = 0;
        while i < self.cache.len()
            invariant
                i <= self.cache@.len(),
                self.cache_keys_unique(),
                forall|k: int| 0 <= k < i ==> #[trigger] self.cache@[k].0@ != url@,
            decreases self.cache@.len() - i,
        {
            if self.cache[i].0 == *url {
                proof {
                    self.lemma_cache_at(i as int);
                }
                return Some(i);
            }
            i = i + 1;
        }
        None
    }

    /// Decides a read of file `ino` from byte `offset`: the bytes where its URL
    /// is cached, else the URL to fetch; `NotFound` where `ino` is unknown or a
    /// directory.
    pub fn read(&self, ino: u64, offset: u64) -> (r: ReadReply)
        requires
            self.wf(),
        ensures
            r@ == read_spec(self@, ino as nat, offset as nat),
    {
        let pn = self.get_inode(ino);
        match pn {
            Some(Node::FileNode(file)) => match self.cache_find(&file.url) {
                Some(i) => ReadReply::Data(tail(&self.cache[i].1, offset)),
                None => ReadReply::Fetch(file.url.clone()),
            },
            _ => ReadReply::NotFound,
        }
    }

    /// Completes a read of file `ino` from byte `offset` with `body`, the whole
    /// contents fetched from its URL: caches them (an entry already there
    /// stays), then answers the read from the cache.
    pub fn complete_read(&mut self, ino: u64, offset: u64, body: Vec<u8>) -> (r: ReadReply)
        requires
            old(self).wf(),
        ensures
            final(self).wf(),
            final(self)@ == store_spec(old(self)@, ino as nat, body@),
            r@ == read_spec(final(self)@, ino as nat, offset as nat),
    {
        let pn = self.get_inode(ino);
        let url = match pn {
            Some(Node::FileNode(file)) => file.url.clone(),
            _ => {
                return ReadReply::NotFound;
            },
        };
        match self.cache_find(&url) {
            Some(i) => ReadReply::Data(tail(&self.cache[i].1, offset)),
            None => {
                let ghost c0 = self.cache@;
                let ghost m0 = self@.cache;
                let data = tail(&body, offset);
                self.cache.push((url, body));
                proof {
                    let c = self.cache@;
                    assert forall|a: int, b: int|
                        0 <= a < c.len() && 0 <= b < c.len() && #[trigger] c[a].0@ == #[trigger] c[b].0@ implies a == b by {
                        if a < c0.len() && b < c0.len() {
                            assert(c0[a].0@ == c0[b].0@);
                        } else if a < c0.len() {
                            assert(cache_has(c0, c0[a].0@, a));
                        } else if b < c0.len() {
                            assert(cache_has(c0, c0[b].0@, b));
                        }
                    }
                    assert forall|k: Seq<char>| #[trigger] self@.cache.contains_key(k) == m0.insert(url@, body@).contains_key(k) by {
                        if exists|i: int| cache_has(c0, k, i) {
                            let i = choose|i: int| cache_has(c0, k, i);
                            assert(cache_has(c, k, i));
                        }
                        if exists|i: int| cache_has(c, k, i) {
                            let i = choose|i: int| cache_has(c, k, i);
                            if i < c0.len() {
                                assert(cache_has(c0, k, i));
                            }
                        }
                        if k == url@ {
                            assert(cache_has(c, k, c.len() - 1));
                        }
                    }
                    assert forall|k: Seq<char>| #[trigger] self@.cache.contains_key(k) implies self@.cache[k] == m0.insert(url@, body@)[k] by {
                        let i = choose|i: int| cache_has(c, k, i);
                        self.lemma_cache_at(i);
                        if i < c0.len() {
                            assert(cache_has(c0, k, i));
                            let j = choose|j: int| cache_has(c0, k, j);
                            assert(c0[j].0@ == c0[i].0@);
                        }
                    }
                    assert(self@.cache =~= m0.insert(url@, body@));
                    assert(self@.nodes == old(self)@.nodes);
                }
                ReadReply::Data(data)
            },
        }
    }

    /// The attributes of node `ino`, or `None` where there is no such node.
    pub fn getattr(&self, ino: u64) -> (r: Option<Attr>)
        ensures
            r == getattr_spec(self@.nodes, ino as nat),
    {
        match self.get_inode(ino) {
            Some(file) => Some(file.get_attr()),
            None => None,
        }
    }
}

} // verus!
