//! A store of files in directories, where every file keeps all its
//! versions.
//!
//! A name is a path of parts with slashes between them. The store holds
//! each file and each directory under its key, the name without the slash
//! at its start and the slash at its end; the root has the empty key. A
//! name is either a file or a directory. Storing a file makes the
//! directories on its path; it is refused where the name is a directory or
//! a part of its path is a file.
use vstd::prelude::*;
use crate::bytemap::{copy_bytes, same_bytes, ByteMap};
use crate::names::SLASH;
use crate::text::{find, lemma_first, lemma_lex_total, less, lex_less};

verus! {

/// What the store holds under a key.
pub enum Node {
    /// A file: its versions, the first one first.
    File(Vec<Vec<u8>>),
    /// A directory.
    Directory,
}

/// What the store holds under a key, as a mathematical value.
pub enum NodeView {
    File(Seq<Seq<u8>>),
    Directory,
}

impl View for Node {
    type V = NodeView;

    open spec fn view(&self) -> NodeView {
        match *self {
            Node::File(versions) => NodeView::File(Seq::new(versions@.len(), |i: int| versions@[i]@)),
            Node::Directory => NodeView::Directory,
        }
    }
}

/// The key of a name: the name without the slash at its start and the slash
/// at its end.
pub open spec fn key_of(name: Seq<u8>) -> Seq<u8> {
    let tail = if name.len() > 0 && name[0] == SLASH {
        name.skip(1)
    } else {
        name
    };
    if tail.len() > 0 && tail.last() == SLASH {
        tail.drop_last()
    } else {
        tail
    }
}

/// Whether `a` is the key of a directory on the path to `key`: `key` goes
/// on with a slash where `a` ends.
pub open spec fn is_ancestor(a: Seq<u8>, key: Seq<u8>) -> bool {
    a.len() < key.len() && key[a.len() as int] == SLASH && key.take(a.len() as int) == a
}

/// Whether `key` lies directly in the directory `dir`.
pub open spec fn is_child(dir: Seq<u8>, key: Seq<u8>) -> bool {
    if dir.len() == 0 {
        key.len() > 0 && !key.contains(SLASH)
    } else {
        is_ancestor(dir, key) && !key.skip(dir.len() as int + 1).contains(SLASH)
    }
}

/// The last part of the key of a child of `dir`.
pub open spec fn child_name(dir: Seq<u8>, key: Seq<u8>) -> Seq<u8> {
    if dir.len() == 0 {
        key
    } else {
        key.skip(dir.len() as int + 1)
    }
}

/// Whether `key` is a directory: the root, or a key held as a directory.
pub open spec fn is_directory(tree: Map<Seq<u8>, NodeView>, key: Seq<u8>) -> bool {
    key.len() == 0 || (tree.dom().contains(key) && tree[key] is Directory)
}

/// The versions of the file `key`, if it is a file.
pub open spec fn versions_of(tree: Map<Seq<u8>, NodeView>, key: Seq<u8>) -> Option<Seq<Seq<u8>>> {
    if tree.dom().contains(key) {
        match tree[key] {
            NodeView::File(versions) => Some(versions),
            NodeView::Directory => None,
        }
    } else {
        None
    }
}

/// Whether no file can be stored under `key`: it is a directory, or a part
/// of its path is a file.
pub open spec fn blocked(tree: Map<Seq<u8>, NodeView>, key: Seq<u8>) -> bool {
    is_directory(tree, key) || exists|a: Seq<u8>|
        #![trigger is_ancestor(a, key)]
        is_ancestor(a, key) && tree.dom().contains(a) && tree[a] is File
}

/// The versions of a file after `data` has been stored in it: what equals
/// the latest version is not stored again.
pub open spec fn versions_after(versions: Seq<Seq<u8>>, data: Seq<u8>) -> Seq<Seq<u8>> {
    if versions.len() > 0 && versions.last() == data {
        versions
    } else {
        versions.push(data)
    }
}

/// A tree with the directories on the path to `key` that are shorter than
/// `upto`.
pub open spec fn with_ancestors(tree: Map<Seq<u8>, NodeView>, key: Seq<u8>, upto: int) -> Map<
    Seq<u8>,
    NodeView,
> {
    Map::new(
        |q: Seq<u8>| tree.dom().contains(q) || (is_ancestor(q, key) && q.len() < upto),
        |q: Seq<u8>|
            if tree.dom().contains(q) {
                tree[q]
            } else {
                NodeView::Directory
            },
    )
}

/// The tree after `data` has been stored under `key`.
pub open spec fn tree_after_put(tree: Map<Seq<u8>, NodeView>, key: Seq<u8>, data: Seq<u8>) -> Map<
    Seq<u8>,
    NodeView,
> {
    let versions = match versions_of(tree, key) {
        Some(v) => v,
        None => Seq::empty(),
    };
    with_ancestors(tree, key, key.len() as int).insert(
        key,
        NodeView::File(versions_after(versions, data)),
    )
}

/// The invariant of a tree: above every key there are directories only.
pub open spec fn tree_wf(tree: Map<Seq<u8>, NodeView>) -> bool {
    forall|key: Seq<u8>, a: Seq<u8>|
        #![trigger tree.dom().contains(key), is_ancestor(a, key)]
        tree.dom().contains(key) && is_ancestor(a, key) ==> tree.dom().contains(a) && tree[a]
            is Directory
}

/// What is above what is above a key is above the key.
pub proof fn lemma_ancestor_of_ancestor(a: Seq<u8>, q: Seq<u8>, key: Seq<u8>)
    requires
        is_ancestor(a, q),
        is_ancestor(q, key),
    ensures
        is_ancestor(a, key),
{
    assert(key.take(q.len() as int)[a.len() as int] == key[a.len() as int]);
    assert(key.take(a.len() as int) =~= q.take(a.len() as int));
}

/// Storing a file where it is not blocked keeps the invariant.
pub proof fn lemma_put_wf(tree: Map<Seq<u8>, NodeView>, key: Seq<u8>, data: Seq<u8>)
    requires
        tree_wf(tree),
        !blocked(tree, key),
    ensures
        tree_wf(tree_after_put(tree, key, data)),
{
    let after = tree_after_put(tree, key, data);
    assert forall|q: Seq<u8>, a: Seq<u8>|
        #![trigger after.dom().contains(q), is_ancestor(a, q)]
        after.dom().contains(q) && is_ancestor(a, q) implies after.dom().contains(a) && after[a]
        is Directory by {
        if q == key || is_ancestor(q, key) {
            if q != key {
                lemma_ancestor_of_ancestor(a, q, key);
            }
            assert(is_ancestor(a, key));
            assert(a != key);
        } else {
            assert(tree.dom().contains(q));
            assert(tree.dom().contains(a) && tree[a] is Directory);
            assert(a != key);
        }
    }
}

/// What a map of nodes holds, as mathematical values.
pub open spec fn node_views(map: Map<Seq<u8>, Node>) -> Map<Seq<u8>, NodeView> {
    Map::new(|key: Seq<u8>| map.dom().contains(key), |key: Seq<u8>| map[key]@)
}

/// Storing a node stores its value.
proof fn lemma_node_views_insert(map: Map<Seq<u8>, Node>, key: Seq<u8>, node: Node)
    ensures
        node_views(map.insert(key, node)) == node_views(map).insert(key, node@),
{
    assert(node_views(map.insert(key, node)) =~= node_views(map).insert(key, node@));
}

/// The store.
pub struct Storage {
    map: ByteMap<Node>,
}

impl View for Storage {
    type V = Map<Seq<u8>, NodeView>;

    closed spec fn view(&self) -> Map<Seq<u8>, NodeView> {
        node_views(self.map@)
    }
}

impl Storage {
    /// The invariant of the store.
    pub closed spec fn wf(&self) -> bool {
        self.map.wf() && tree_wf(self@)
    }

    /// An empty store.
    pub fn new() -> (s: Self)
        ensures
            s.wf(),
            s@ == Map::<Seq<u8>, NodeView>::empty(),
    {
        let s = Storage { map: ByteMap::new() };
        assert(s@ =~= Map::<Seq<u8>, NodeView>::empty());
        s
    }

    /// Whether `key` is a directory.
    pub fn is_directory(&self, key: &[u8]) -> (r: bool)
        requires
            self.wf(),
        ensures
            r == is_directory(self@, key@),
    {
        if key.len() == 0 {
            return true;
        }
        match self.map.get(key) {
            Some(Node::Directory) => true,
            _ => false,
        }
    }

    /// The versions of the file `key`, if it is a file.
    pub fn versions(&self, key: &[u8]) -> (r: Option<&Vec<Vec<u8>>>)
        requires
            self.wf(),
        ensures
            match r {
                Some(v) => versions_of(self@, key@) == Some(Seq::new(v@.len(), |i: int| v@[i]@)),
                None => versions_of(self@, key@) is None,
            },
    {
        match self.map.get(key) {
            Some(Node::File(v)) => Some(v),
            _ => None,
        }
    }

    /// Whether no file can be stored under `key`.
    pub fn is_blocked(&self, key: &[u8]) -> (r: bool)
        requires
            self.wf(),
        ensures
            r == blocked(self@, key@),
    {
        if self.is_directory(key) {
            return true;
        }
        let mut i: usize = 0;
        while i < key.len()
            invariant
                self.wf(),
                i <= key.len(),
                forall|a: Seq<u8>|
                    #![trigger is_ancestor(a, key@)]
                    is_ancestor(a, key@) && a.len() < i ==> !(self@.dom().contains(a) && self@[a]
                        is File),
            decreases key.len() - i,
        {
            if key[i] == SLASH {
                let prefix = vstd::slice::slice_subrange(key, 0, i);
                assert(prefix@ == key@.take(i as int));
                assert(is_ancestor(prefix@, key@));
                match self.map.get(prefix) {
                    Some(Node::File(_)) => {
                        return true;
                    },
                    _ => {},
                }
            }
            proof {
                assert forall|a: Seq<u8>|
                    #![trigger is_ancestor(a, key@)]
                    is_ancestor(a, key@) && a.len() < i + 1 implies !(self@.dom().contains(a)
                    && self@[a] is File) by {
                    if a.len() == i {
                        assert(a == key@.take(i as int));
                    }
                }
            }
            i += 1;
        }
        false
    }

    /// Stores `data` as the newest version of the file `key`, unless it
    /// equals the newest version there is, and gives the number of versions
    /// that the file then has. The directories on the path are made where
    /// they are missing.
    pub fn put(&mut self, key: &[u8], data: Vec<u8>) -> (revision: usize)
        requires
            old(self).wf(),
            !blocked(old(self)@, key@),
        ensures
            final(self).wf(),
            final(self)@ == tree_after_put(old(self)@, key@, data@),
            versions_of(final(self)@, key@) matches Some(v) && v.len() == revision,
    {
        proof {
            lemma_put_wf(self@, key@, data@);
        }
        let mut i: usize = 0;
        proof {
            assert(self@ =~= with_ancestors(old(self)@, key@, 0));
        }
        while i < key.len()
            invariant
                self.map.wf(),
                i <= key.len(),
                self@ == with_ancestors(old(self)@, key@, i as int),
            decreases key.len() - i,
        {
            let ghost before = self@;
            if key[i] == SLASH {
                let prefix = vstd::slice::slice_subrange(key, 0, i);
                assert(prefix@ == key@.take(i as int));
                assert(is_ancestor(prefix@, key@));
                let ghost held = self.map@;
                if self.map.get(prefix).is_none() {
                    self.map.insert(prefix, Node::Directory);
                    proof {
                        lemma_node_views_insert(held, prefix@, Node::Directory);
                    }
                }
                proof {
                    let goal = with_ancestors(old(self)@, key@, i + 1);
                    assert forall|q: Seq<u8>| is_ancestor(q, key@) && q.len() == i implies q
                        == prefix@ by {}
                    assert forall|q: Seq<u8>| self@.dom().contains(q) == goal.dom().contains(
                        q,
                    ) by {
                        if q != prefix@ {
                            assert(self@.dom().contains(q) == before.dom().contains(q));
                        }
                    }
                    assert forall|q: Seq<u8>| self@.dom().contains(q) implies self@[q]
                        == goal[q] by {
                        if q != prefix@ {
                            assert(self@[q] == before[q]);
                        } else if before.dom().contains(q) {
                            assert(self@[q] == before[q]);
                        }
                    }
                    assert(self@ =~= goal);
                }
            } else {
                proof {
                    assert(self@ =~= with_ancestors(old(self)@, key@, i + 1));
                }
            }
            i += 1;
        }
        let ghost dirs = self@;
        let ghost held = self.map@;
        let ghost was = match versions_of(old(self)@, key@) {
            Some(v) => v,
            None => Seq::empty(),
        };
        proof {
            assert(!is_ancestor(key@, key@));
            assert(dirs.dom().contains(key@) == old(self)@.dom().contains(key@));
            if dirs.dom().contains(key@) {
                assert(dirs[key@] == old(self)@[key@]);
                assert(dirs[key@] is File);
            }
        }
        let revision = match self.map.position(key) {
            Some(p) => {
                let node = self.map.replace(p, Node::Directory);
                assert(node@ == dirs[key@]);
                match node {
                    Node::File(mut versions) => {
                        assert(Seq::new(versions@.len(), |i: int| versions@[i]@) == was);
                        let n = versions.len();
                        if n == 0 || !same_bytes(versions[n - 1].as_slice(), data.as_slice()) {
                            versions.push(data);
                        }
                        let revision = versions.len();
                        let ghost now = Node::File(versions);
                        proof {
                            assert(Seq::new(versions@.len(), |i: int| versions@[i]@)
                                =~= versions_after(was, data@));
                            assert(now@ == NodeView::File(versions_after(was, data@)));
                            lemma_node_views_insert(held, key@, Node::Directory);
                            lemma_node_views_insert(
                                held.insert(key@, Node::Directory),
                                key@,
                                now,
                            );
                        }
                        self.map.set(p, Node::File(versions));
                        assert(self.map@ == held.insert(key@, Node::Directory).insert(key@, now));
                        revision
                    },
                    Node::Directory => 0,
                }
            },
            None => {
                let mut versions: Vec<Vec<u8>> = Vec::new();
                versions.push(data);
                let ghost now = Node::File(versions);
                proof {
                    assert(was == Seq::<Seq<u8>>::empty());
                    assert(Seq::new(versions@.len(), |i: int| versions@[i]@) =~= versions_after(
                        was,
                        data@,
                    ));
                    assert(now@ == NodeView::File(versions_after(was, data@)));
                    lemma_node_views_insert(held, key@, now);
                }
                self.map.insert(key, Node::File(versions));
                1
            },
        };
        proof {
            assert(self@ =~= tree_after_put(old(self)@, key@, data@));
        }
        revision
    }
}

/// The key of what has the name `name` in the directory `dir`.
pub open spec fn child_key(dir: Seq<u8>, name: Seq<u8>) -> Seq<u8> {
    if dir.len() == 0 {
        name
    } else {
        dir.push(SLASH) + name
    }
}

/// A line of a listing: a name in a directory, and the number of versions
/// if the name is a file.
pub struct Listed {
    /// The name, the last part of the key.
    pub name: Vec<u8>,
    /// The number of versions of a file; `None` for a directory.
    pub versions: Option<usize>,
}

/// A line of a listing as a mathematical value.
pub struct ListedView {
    pub name: Seq<u8>,
    pub versions: Option<usize>,
}

impl View for Listed {
    type V = ListedView;

    open spec fn view(&self) -> ListedView {
        ListedView { name: self.name@, versions: self.versions }
    }
}

/// The lines of a listing as mathematical values.
pub open spec fn listed_views(lines: Seq<Listed>) -> Seq<ListedView> {
    Seq::new(lines.len(), |i: int| lines[i]@)
}

/// What a listing says of a node.
pub open spec fn summary(node: NodeView) -> Option<usize> {
    match node {
        NodeView::File(versions) => Some(versions.len() as usize),
        NodeView::Directory => None,
    }
}

/// Whether `lines` is the listing of `dir`: nothing where `dir` is no
/// directory; else a line for each key that lies directly in `dir` and for
/// nothing else, each with what the tree holds there, in the order of the
/// names.
pub open spec fn is_listing(tree: Map<Seq<u8>, NodeView>, dir: Seq<u8>, lines: Seq<ListedView>) -> bool {
    if !is_directory(tree, dir) {
        lines.len() == 0
    } else {
        &&& forall|j: int|
            0 <= j && j + 1 < lines.len() ==> lex_less(#[trigger] lines[j].name, lines[j + 1].name)
        &&& forall|j: int|
            0 <= j < lines.len() ==> {
                let key = child_key(dir, (#[trigger] lines[j]).name);
                tree.dom().contains(key) && is_child(dir, key) && lines[j].versions == summary(
                    tree[key],
                )
            }
        &&& forall|key: Seq<u8>|
            #![trigger tree.dom().contains(key)]
            tree.dom().contains(key) && is_child(dir, key) ==> exists|j: int|
                0 <= j < lines.len() && (#[trigger] lines[j]).name == child_name(dir, key)
    }
}

/// The key of a child is made of the directory and the child's name.
pub proof fn lemma_child_key(dir: Seq<u8>, key: Seq<u8>)
    requires
        is_child(dir, key),
    ensures
        child_key(dir, child_name(dir, key)) == key,
{
    if dir.len() > 0 {
        assert(dir.push(SLASH) + key.skip(dir.len() as int + 1) =~= key);
    }
}

/// Where in `key` the name of a child of `dir` starts, if `key` lies
/// directly in `dir`.
fn child_start(dir: &[u8], key: &[u8]) -> (r: Option<usize>)
    ensures
        match r {
            Some(start) => is_child(dir@, key@) && start <= key.len() && key@.skip(start as int)
                == child_name(dir@, key@),
            None => !is_child(dir@, key@),
        },
{
    let start: usize = if dir.len() == 0 {
        if key.len() == 0 {
            return None;
        }
        0
    } else {
        if key.len() <= dir.len() || key[dir.len()] != SLASH {
            return None;
        }
        if !same_bytes(vstd::slice::slice_subrange(key, 0, dir.len()), dir) {
            assert(key@.take(dir.len() as int) == key@.subrange(0, dir.len() as int));
            return None;
        }
        assert(key@.take(dir.len() as int) == key@.subrange(0, dir.len() as int));
        dir.len() + 1
    };
    let end = find(key, SLASH, start);
    proof {
        let rest = key@.skip(start as int);
        lemma_first(rest, SLASH);
        if end < key.len() {
            assert(rest[end - start] == SLASH);
            assert(rest.contains(SLASH));
        } else {
            assert(!rest.contains(SLASH));
        }
        assert(key@.skip(0) == key@);
    }
    if end < key.len() {
        None
    } else {
        Some(start)
    }
}

/// Whether the names of some lines go up from each line to the next.
pub open spec fn names_ascend(lines: Seq<Listed>) -> bool {
    forall|j: int| 0 <= j && j + 1 < lines.len() ==> lex_less((#[trigger] lines[j]).name@, lines[j + 1].name@)
}

/// Puts `line` where its name belongs among `lines`, and gives the place.
fn insert_in_order(lines: &mut Vec<Listed>, line: Listed) -> (p: usize)
    requires
        names_ascend(old(lines)@),
        forall|j: int| 0 <= j < old(lines).len() ==> (#[trigger] old(lines)[j]).name@ != line.name@,
    ensures
        p <= old(lines).len(),
        final(lines)@ == old(lines)@.insert(p as int, line),
        names_ascend(final(lines)@),
{
    let mut p: usize = 0;
    while p < lines.len() && less(lines[p].name.as_slice(), line.name.as_slice())
        invariant
            p <= lines.len(),
            forall|j: int| 0 <= j < p ==> lex_less((#[trigger] lines[j]).name@, line.name@),
        decreases lines.len() - p,
    {
        p += 1;
    }
    proof {
        if p < lines.len() {
            assert(lines[p as int].name@ != line.name@);
            if !lex_less(line.name@, lines[p as int].name@) {
                lemma_lex_total(line.name@, lines[p as int].name@);
            }
        }
    }
    let ghost before = lines@;
    lines.insert(p, line);
    proof {
        assert forall|j: int| 0 <= j && j + 1 < lines.len() implies lex_less(
            (#[trigger] lines[j]).name@,
            lines[j + 1].name@,
        ) by {
            if j + 1 < p {
                assert(lines[j] == before[j] && lines[j + 1] == before[j + 1]);
            } else if j + 1 == p {
                assert(lines[j] == before[j]);
            } else if j == p {
                assert(lines[j + 1] == before[j]);
            } else {
                assert(lines[j] == before[j - 1] && lines[j + 1] == before[j]);
                assert(lex_less(before[j - 1].name@, before[j].name@));
            }
        }
    }
    p
}

impl Storage {
    /// Whether line `j` of a listing of `dir` says what the store holds at
    /// place `k`.
    spec fn line_from(&self, dir: Seq<u8>, line: Listed, k: int) -> bool {
        &&& 0 <= k < self.map.keys().len()
        &&& self.map.keys()[k] == child_key(dir, line.name@)
        &&& is_child(dir, self.map.keys()[k])
        &&& line.versions == summary(self.map.values()[k]@)
    }

    /// The listing of the directory `dir`.
    pub fn list(&self, dir: &[u8]) -> (out: Vec<Listed>)
        requires
            self.wf(),
        ensures
            is_listing(self@, dir@, listed_views(out@)),
    {
        let mut out: Vec<Listed> = Vec::new();
        if !self.is_directory(dir) {
            return out;
        }
        let n = self.map.len();
        let mut i: usize = 0;
        let ghost mut source: Seq<int> = Seq::empty();
        while i < n
            invariant
                self.wf(),
                n == self.map.keys().len(),
                i <= n,
                names_ascend(out@),
                source.len() == out.len(),
                forall|j: int|
                    0 <= j < out.len() ==> #[trigger] source[j] < i && self.line_from(
                        dir@,
                        out[j],
                        source[j],
                    ),
                forall|k: int|
                    0 <= k < i && is_child(dir@, #[trigger] self.map.keys()[k]) ==> source.contains(k),
            decreases n - i,
        {
            let key = self.map.key(i);
            match child_start(dir, key) {
                Some(start) => {
                    let name = copy_bytes(
                        vstd::slice::slice_subrange(key, start, key.len()),
                    );
                    let versions = match self.map.value(i) {
                        Node::File(v) => Some(v.len()),
                        Node::Directory => None,
                    };
                    let line = Listed { name, versions };
                    proof {
                        assert(line.name@ == child_name(dir@, key@));
                        lemma_child_key(dir@, key@);
                        assert(self.line_from(dir@, line, i as int));
                        assert forall|j: int| 0 <= j < out.len() implies (#[trigger] out[j]).name@
                            != line.name@ by {
                            assert(source[j] < i && self.line_from(dir@, out[j], source[j]));
                        }
                    }
                    let ghost before = out@;
                    let ghost sources = source;
                    let p = insert_in_order(&mut out, line);
                    proof {
                        source = sources.insert(p as int, i as int);
                        assert forall|j: int| 0 <= j < out.len() implies #[trigger] source[j] < i
                            + 1 && self.line_from(dir@, out[j], source[j]) by {
                            if j < p {
                                assert(out[j] == before[j] && source[j] == sources[j]);
                            } else if j > p {
                                assert(out[j] == before[j - 1] && source[j] == sources[j - 1]);
                            }
                        }
                        assert forall|k: int|
                            0 <= k < i + 1 && is_child(
                                dir@,
                                #[trigger] self.map.keys()[k],
                            ) implies source.contains(k) by {
                            if k == i {
                                assert(source[p as int] == k);
                            } else {
                                let b = choose|b: int| 0 <= b < sources.len() && sources[b] == k;
                                if b < p {
                                    assert(source[b] == k);
                                } else {
                                    assert(source[b + 1] == k);
                                }
                            }
                        }
                    }
                },
                None => {},
            }
            i += 1;
        }
        proof {
            let lines = listed_views(out@);
            assert forall|j: int| 0 <= j < lines.len() implies {
                let key = child_key(dir@, (#[trigger] lines[j]).name);
                self@.dom().contains(key) && is_child(dir@, key) && lines[j].versions == summary(
                    self@[key],
                )
            } by {
                assert(source[j] < n && self.line_from(dir@, out[j], source[j]));
                self.map.lemma_at(source[j]);
            }
            assert forall|key: Seq<u8>|
                #![trigger self@.dom().contains(key)]
                self@.dom().contains(key) && is_child(dir@, key) implies exists|j: int|
                0 <= j < lines.len() && (#[trigger] lines[j]).name == child_name(dir@, key) by {
                let k = choose|k: int| self.map.key_at(k, key);
                assert(self.map.keys()[k] == key);
                assert(source.contains(k));
                let j = choose|j: int| 0 <= j < source.len() && source[j] == k;
                assert(self.line_from(dir@, out[j], source[j]));
                lemma_child_key(dir@, key);
                assert(lines[j].name == child_name(dir@, key)) by {
                    lemma_child_key_injective(dir@, out[j].name@, child_name(dir@, key));
                }
            }
            assert forall|j: int| 0 <= j && j + 1 < lines.len() implies lex_less(
                #[trigger] lines[j].name,
                lines[j + 1].name,
            ) by {
                assert(lex_less(out[j].name@, out[j + 1].name@));
            }
        }
        out
    }
}

/// Different names in a directory have different keys.
pub proof fn lemma_child_key_injective(dir: Seq<u8>, a: Seq<u8>, b: Seq<u8>)
    requires
        child_key(dir, a) == child_key(dir, b),
    ensures
        a == b,
{
    if dir.len() > 0 {
        assert(child_key(dir, a).skip(dir.len() as int + 1) =~= a);
        assert(child_key(dir, b).skip(dir.len() as int + 1) =~= b);
    }
}

} // verus!
