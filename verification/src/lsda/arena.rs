//! The tree while its symbol table is being read: nodes that name each other by
//! number.

use crate::lsda::order::{lemma_insert_sorted, lemma_one_place, names, search, sorted};
use crate::lsda::tree::{lemma_dir_wf, Path, SymMeta, SymNode};
use vstd::prelude::*;
use vstd::slice::slice_to_vec;

verus! {

/// One node. Directories have type 0; the others carry the location of their data.
/// The children are in the order of their names.
pub struct RNode {
    pub type_: u8,
    pub offset: u64,
    pub length: u64,
    pub file_index: usize,
    pub name_len: usize,
    pub parent: usize,
    pub children: Vec<(Vec<u8>, usize)>,
}

/// What is known of a directory.
pub open spec fn dir_meta() -> SymMeta {
    SymMeta { type_: 0, offset: 0, length: 0, file_index: 0, name_len: 0 }
}

impl RNode {
    /// A directory without children.
    pub fn dir(parent: usize) -> (r: Self)
        ensures
            r.meta() == dir_meta(),
            r.parent == parent,
            r.children@.len() == 0,
    {
        RNode {
            type_: 0,
            offset: 0,
            length: 0,
            file_index: 0,
            name_len: 0,
            parent,
            children: Vec::new(),
        }
    }

    pub open spec fn meta(self) -> SymMeta {
        SymMeta {
            type_: self.type_,
            offset: self.offset,
            length: self.length,
            file_index: self.file_index,
            name_len: self.name_len,
        }
    }

    /// The number of the child that has the name.
    pub open spec fn link(self, name: Seq<u8>) -> Option<int> {
        if names(self.children@).contains(name) {
            Some(self.children@[names(self.children@).index_of(name)].1 as int)
        } else {
            None
        }
    }
}

/// What a node is: what is known of it, the number of its parent, and its children by
/// name.
pub struct NodeView {
    pub meta: SymMeta,
    pub parent: int,
    pub links: Map<Seq<u8>, int>,
}

impl View for RNode {
    type V = NodeView;

    open spec fn view(&self) -> NodeView {
        NodeView {
            meta: self.meta(),
            parent: self.parent as int,
            links: Map::new(|n: Seq<u8>| self.link(n) is Some, |n: Seq<u8>| self.link(n)->0),
        }
    }
}

/// The nodes, by number.
pub open spec fn nodes(a: Seq<RNode>) -> Seq<NodeView> {
    Seq::new(a.len(), |i: int| a[i]@)
}

/// The nodes with a new one behind them, child `name` of node `i`.
pub open spec fn with_child(
    n: Seq<NodeView>,
    i: int,
    name: Seq<u8>,
    meta: SymMeta,
) -> Seq<NodeView> {
    n.update(i, NodeView { links: n[i].links.insert(name, n.len() as int), ..n[i] }).push(
        NodeView { meta, parent: i, links: Map::empty() },
    )
}

/// Goes down names from node `i`: `..` goes to the parent, a name that is not there
/// becomes a new directory behind all nodes, and a dataset in the way ends the walk.
/// Gives the nodes and where the walk ends.
pub open spec fn node_walk(n: Seq<NodeView>, i: int, names: Path) -> (Seq<NodeView>, int)
    decreases names.len(),
{
    if names.len() == 0 {
        (n, i)
    } else {
        let rest = names.drop_first();
        if names[0] == seq![46u8, 46u8] {
            node_walk(n, n[i].parent, rest)
        } else if n[i].links.contains_key(names[0]) {
            let k = n[i].links[names[0]];
            if n[k].meta.type_ == 0 {
                node_walk(n, k, rest)
            } else {
                (n, i)
            }
        } else {
            node_walk(with_child(n, i, names[0], dir_meta()), n.len() as int, rest)
        }
    }
}

/// The nodes with a dataset declared in node `i`: a known name gets the new record and
/// keeps its parent and children, an unknown one becomes a new node behind all others.
pub open spec fn node_declared(
    n: Seq<NodeView>,
    i: int,
    name: Seq<u8>,
    meta: SymMeta,
) -> Seq<NodeView> {
    if n[i].links.contains_key(name) {
        let k = n[i].links[name];
        n.update(k, NodeView { meta, ..n[k] })
    } else {
        with_child(n, i, name, meta)
    }
}

/// The node that a path from node `i` leads to.
pub open spec fn reach(a: Seq<RNode>, i: int, path: Path) -> Option<int>
    decreases path.len(),
{
    if path.len() == 0 {
        Some(i)
    } else {
        match reach(a, i, path.drop_last()) {
            Some(j) => a[j].link(path.last()),
            None => None,
        }
    }
}

/// Child `k` of node `i` comes after it, and names it as its parent.
pub open spec fn linked(a: Seq<RNode>, i: int, k: int) -> bool {
    let c = a[i].children@[k].1 as int;
    i < c < a.len() && a[c].parent == i
}

/// A tree with its root in front: children come after their parents and name them,
/// and no node is a child twice.
pub open spec fn is_tree(a: Seq<RNode>) -> bool {
    &&& a.len() >= 1
    &&& a[0].parent == 0
    &&& forall|i: int| 0 <= i < a.len() ==> sorted(names((#[trigger] a[i]).children@))
    &&& forall|i: int, k: int|
        0 <= i < a.len() && 0 <= k < a[i].children@.len() ==> #[trigger] linked(a, i, k)
    &&& forall|i: int, k: int, l: int|
        0 <= i < a.len() && 0 <= k < a[i].children@.len() && 0 <= l < a[i].children@.len() && (
        #[trigger] a[i].children@[k]).1 == (#[trigger] a[i].children@[l]).1 ==> k == l
}

/// Every path that leads from node `i` to a node, with what is known of that node.
pub open spec fn entries_from(a: Seq<RNode>, i: int) -> Map<Path, SymMeta> {
    Map::new(|p: Path| reach(a, i, p) is Some, |p: Path| a[reach(a, i, p)->0].meta())
}

/// Every path that leads from the root to a node, with what is known of that node.
pub open spec fn entries(a: Seq<RNode>) -> Map<Path, SymMeta> {
    entries_from(a, 0)
}

/// Some path leads from the root to node `i`.
pub open spec fn reachable(a: Seq<RNode>, i: int) -> bool {
    exists|p: Path| reach(a, 0, p) == Some(i)
}

/// The path from the root to node `i`.
pub open spec fn path_to(a: Seq<RNode>, i: int) -> Path {
    choose|p: Path| reach(a, 0, p) == Some(i)
}

/// A link leads to a child.
proof fn lemma_link(a: Seq<RNode>, i: int, name: Seq<u8>) -> (k: int)
    requires
        is_tree(a),
        0 <= i < a.len(),
        a[i].link(name) is Some,
    ensures
        0 <= k < a[i].children@.len(),
        a[i].children@[k].0@ == name,
        a[i].children@[k].1 == a[i].link(name)->0,
        i < a[i].link(name)->0 < a.len(),
        a[a[i].link(name)->0].parent == i,
{
    let ns = names(a[i].children@);
    let k = ns.index_of(name);
    assert(ns[k] == name);
    assert(linked(a, i, k));
    k
}

/// A path leads to a node that exists and is no ancestor.
pub proof fn lemma_reach_bounds(a: Seq<RNode>, i: int, p: Path)
    requires
        is_tree(a),
        0 <= i < a.len(),
        reach(a, i, p) is Some,
    ensures
        i <= reach(a, i, p)->0 < a.len(),
        p.len() > 0 ==> i < reach(a, i, p)->0,
    decreases p.len(),
{
    if p.len() > 0 {
        lemma_reach_bounds(a, i, p.drop_last());
        lemma_link(a, reach(a, i, p.drop_last())->0, p.last());
    }
}

/// The path but for its last name leads to the parent.
proof fn lemma_reach_parent(a: Seq<RNode>, p: Path)
    requires
        is_tree(a),
        p.len() > 0,
        reach(a, 0, p) is Some,
    ensures
        reach(a, 0, p.drop_last()) == Some(a[reach(a, 0, p)->0].parent as int),
{
    lemma_reach_bounds(a, 0, p.drop_last());
    lemma_link(a, reach(a, 0, p.drop_last())->0, p.last());
}

/// Only one path leads to a node.
pub proof fn lemma_one_path(a: Seq<RNode>, p: Path, q: Path)
    requires
        is_tree(a),
        reach(a, 0, p) is Some,
        reach(a, 0, p) == reach(a, 0, q),
    ensures
        p == q,
    decreases p.len(),
{
    lemma_reach_bounds(a, 0, p);
    lemma_reach_bounds(a, 0, q);
    if p.len() == 0 || q.len() == 0 {
        assert(p =~= q);
    } else {
        lemma_reach_parent(a, p);
        lemma_reach_parent(a, q);
        lemma_one_path(a, p.drop_last(), q.drop_last());
        let j = reach(a, 0, p.drop_last())->0;
        lemma_reach_bounds(a, 0, p.drop_last());
        let k = lemma_link(a, j, p.last());
        let l = lemma_link(a, j, q.last());
        assert(a[j].children@[k].1 == a[j].children@[l].1);
        assert(p =~= p.drop_last().push(p.last()));
        assert(q =~= q.drop_last().push(q.last()));
    }
}

/// The path to a node leads there.
pub proof fn lemma_path_to(a: Seq<RNode>, p: Path)
    requires
        is_tree(a),
        reach(a, 0, p) is Some,
    ensures
        reachable(a, reach(a, 0, p)->0),
        path_to(a, reach(a, 0, p)->0) == p,
{
    let i = reach(a, 0, p)->0;
    assert(reach(a, 0, p) == Some(i));
    lemma_one_path(a, p, path_to(a, i));
}

/// One step down from a node that a path leads to.
pub proof fn lemma_reach_push(a: Seq<RNode>, i: int, p: Path, name: Seq<u8>)
    ensures
        reach(a, i, p.push(name)) == match reach(a, i, p) {
            Some(j) => a[j].link(name),
            None => None,
        },
{
    assert(p.push(name).drop_last() =~= p);
}

/// `b` is `a` with a new node, child `name` of node `i`.
pub open spec fn grown(a: Seq<RNode>, b: Seq<RNode>, i: int, name: Seq<u8>, meta: SymMeta) -> bool {
    &&& b.len() == a.len() + 1
    &&& b[a.len() as int].meta() == meta
    &&& b[a.len() as int].parent == i
    &&& b[a.len() as int].children@.len() == 0
    &&& b[i].meta() == a[i].meta()
    &&& b[i].parent == a[i].parent
    &&& forall|j: int| 0 <= j < a.len() && j != i ==> b[j] == #[trigger] a[j]
}

/// Links of a node that got a child.
pub open spec fn linked_in(
    s: Seq<(Vec<u8>, usize)>,
    t: Seq<(Vec<u8>, usize)>,
    at: int,
    name: Seq<u8>,
    c: int,
) -> bool {
    &&& 0 <= at <= s.len()
    &&& t.len() == s.len() + 1
    &&& t[at].0@ == name
    &&& t[at].1 == c
    &&& forall|k: int| 0 <= k < at ==> t[k] == #[trigger] s[k]
    &&& forall|k: int| at <= k < s.len() ==> t[k + 1] == #[trigger] s[k]
    &&& forall|k: int| 0 <= k < at ==> crate::lsda::order::bytes_lt(#[trigger] names(s)[k], name)
    &&& forall|k: int|
        at <= k < s.len() ==> crate::lsda::order::bytes_lt(name, #[trigger] names(s)[k])
}

proof fn lemma_linked_in(x: RNode, y: RNode, at: int, name: Seq<u8>, c: int)
    requires
        sorted(names(x.children@)),
        linked_in(x.children@, y.children@, at, name, c),
    ensures
        sorted(names(y.children@)),
        x.link(name) is None,
        forall|n: Seq<u8>|
            #![trigger y.link(n)]
            y.link(n) == if n == name {
                Some(c)
            } else {
                x.link(n)
            },
{
    let s = x.children@;
    let t = y.children@;
    let ns = names(s);
    let nt = names(t);
    assert(nt =~= ns.insert(at, name));
    lemma_insert_sorted(ns, at, name);
    if ns.contains(name) {
        let k = ns.index_of(name);
        crate::lsda::order::lemma_bytes_lt_irreflexive(name);
        assert(ns[k] == name);
        assert(false);
    }
    assert forall|n: Seq<u8>|
        #![trigger y.link(n)]
        y.link(n) == if n == name {
            Some(c)
        } else {
            x.link(n)
        } by {
        if n == name {
            assert(nt[at] == name);
            assert(nt.contains(name));
            lemma_one_place(nt, at, nt.index_of(name));
        } else if ns.contains(n) {
            let k = ns.index_of(n);
            assert(ns[k] == n);
            let m = if k < at {
                k
            } else {
                k + 1
            };
            assert(t[m] == s[k]);
            assert(nt[m] == n);
            assert(nt.contains(n));
            lemma_one_place(nt, m, nt.index_of(n));
        } else if nt.contains(n) {
            let m = nt.index_of(n);
            assert(nt[m] == n);
            let k = if m < at {
                m
            } else {
                m - 1
            };
            assert(m != at);
            assert(t[m] == s[k]);
            assert(ns[k] == n);
            assert(ns.contains(n));
        }
    }
}

/// A new node stands behind all others, and its parent gets a link to it.
proof fn lemma_grown_nodes(
    a: Seq<RNode>,
    b: Seq<RNode>,
    i: int,
    at: int,
    name: Seq<u8>,
    meta: SymMeta,
)
    requires
        0 <= i < a.len(),
        sorted(names(a[i].children@)),
        grown(a, b, i, name, meta),
        linked_in(a[i].children@, b[i].children@, at, name, a.len() as int),
    ensures
        !nodes(a)[i].links.contains_key(name),
        nodes(b) == with_child(nodes(a), i, name, meta),
{
    lemma_linked_in(a[i], b[i], at, name, a.len() as int);
    let n = nodes(a);
    let want = with_child(n, i, name, meta);
    assert forall|j: int| 0 <= j < b.len() implies nodes(b)[j] == want[j] by {
        if j == i {
            assert forall|x: Seq<u8>| #[trigger] b[i]@.links.contains_key(x) == n[i].links.insert(
                name,
                a.len() as int,
            ).contains_key(x) by {
                assert(b[i].link(x) is Some || b[i].link(x) is None);
            }
            assert(b[i]@.links =~= n[i].links.insert(name, a.len() as int));
        } else if j == a.len() {
            assert(names(b[j].children@).len() == 0);
            assert(b[j]@.links =~= Map::<Seq<u8>, int>::empty());
        } else {
            assert(b[j] == a[j]);
        }
    }
    assert(nodes(b) =~= want);
}

/// A new node is a new path and changes no other.
proof fn lemma_grown(a: Seq<RNode>, b: Seq<RNode>, i: int, at: int, name: Seq<u8>, meta: SymMeta)
    requires
        is_tree(a),
        0 <= i < a.len(),
        reachable(a, i),
        grown(a, b, i, name, meta),
        linked_in(a[i].children@, b[i].children@, at, name, a.len() as int),
    ensures
        is_tree(b),
        !entries(a).contains_key(path_to(a, i).push(name)),
        entries(b) == entries(a).insert(path_to(a, i).push(name), meta),
        reach(b, 0, path_to(a, i).push(name)) == Some(a.len() as int),
        path_to(b, a.len() as int) == path_to(a, i).push(name),
        reachable(b, a.len() as int),
        reach(b, 0, path_to(a, i)) == Some(i),
        path_to(b, i) == path_to(a, i),
        reachable(b, i),
{
    lemma_linked_in(a[i], b[i], at, name, a.len() as int);
    let n = a.len() as int;
    let home = path_to(a, i);
    let new = home.push(name);
    assert(reach(a, 0, home) == Some(i));
    assert forall|j: int| 0 <= j < b.len() implies sorted(
        names((#[trigger] b[j]).children@),
    ) by {
        if j == n {
        } else if j != i {
            assert(b[j] == a[j]);
        }
    }
    assert forall|j: int, k: int|
        0 <= j < b.len() && 0 <= k < b[j].children@.len() implies #[trigger] linked(b, j, k) by {
        if j == i {
            if k < at {
                assert(linked(a, i, k));
                assert(b[i].children@[k] == a[i].children@[k]);
            } else if k > at {
                assert(linked(a, i, k - 1));
                assert(b[i].children@[k - 1 + 1] == a[i].children@[k - 1]);
            }
        } else {
            assert(b[j] == a[j]);
            assert(linked(a, j, k));
        }
        let c = b[j].children@[k].1 as int;
        if c < n && c != i {
            assert(b[c] == a[c]);
        }
    }
    assert forall|j: int, k: int, l: int|
        0 <= j < b.len() && 0 <= k < b[j].children@.len() && 0 <= l < b[j].children@.len() && (
        #[trigger] b[j].children@[k]).1 == (#[trigger] b[j].children@[l]).1 implies k == l by {
        if j == i {
            let s = a[i].children@;
            let kk = if k < at {
                k
            } else {
                k - 1
            };
            let ll = if l < at {
                l
            } else {
                l - 1
            };
            if k != at {
                assert(linked(a, i, kk));
                assert(b[i].children@[k] == s[kk]);
            }
            if l != at {
                assert(linked(a, i, ll));
                assert(b[i].children@[l] == s[ll]);
            }
            if k != at && l != at {
                assert(s[kk].1 == s[ll].1);
            }
        } else {
            assert(b[j] == a[j]);
        }
    }
    assert(is_tree(b));
    assert forall|p: Path| #[trigger]
        reach(b, 0, p) == if p == new {
            Some(n)
        } else {
            reach(a, 0, p)
        } by {
        lemma_grown_reach(a, b, i, at, name, meta, p);
    }
    lemma_reach_push(a, 0, home, name);
    assert forall|p: Path| entries(b).contains_key(p) implies entries(b)[p] == entries(a).insert(
        new,
        meta,
    )[p] by {
        if p != new {
            let j = reach(a, 0, p)->0;
            lemma_reach_bounds(a, 0, p);
            assert(b[j].meta() == a[j].meta());
        }
    }
    assert(entries(b) =~= entries(a).insert(new, meta));
    lemma_path_to(b, new);
    assert(home != new) by {
        assert(new.len() == home.len() + 1);
    }
    lemma_path_to(b, home);
}

proof fn lemma_grown_reach(
    a: Seq<RNode>,
    b: Seq<RNode>,
    i: int,
    at: int,
    name: Seq<u8>,
    meta: SymMeta,
    p: Path,
)
    requires
        is_tree(a),
        0 <= i < a.len(),
        reachable(a, i),
        grown(a, b, i, name, meta),
        linked_in(a[i].children@, b[i].children@, at, name, a.len() as int),
    ensures
        reach(b, 0, p) == if p == path_to(a, i).push(name) {
            Some(a.len() as int)
        } else {
            reach(a, 0, p)
        },
    decreases p.len(),
{
    lemma_linked_in(a[i], b[i], at, name, a.len() as int);
    let home = path_to(a, i);
    let new = home.push(name);
    assert(reach(a, 0, home) == Some(i));
    lemma_reach_push(a, 0, home, name);
    assert(reach(a, 0, new) is None);
    if p.len() > 0 {
        let q = p.drop_last();
        lemma_grown_reach(a, b, i, at, name, meta, q);
        assert(p =~= q.push(p.last()));
        if q == new {
            assert(b[a.len() as int].link(p.last()) is None);
            assert(p.len() == new.len() + 1);
        } else if let Some(j) = reach(a, 0, q) {
            lemma_reach_bounds(a, 0, q);
            if j == i {
                lemma_path_to(a, q);
                assert(q == home);
            } else {
                assert(b[j] == a[j]);
                if p == new {
                    assert(q =~= home);
                }
            }
        } else if p == new {
            assert(q =~= home);
        }
    }
}

/// What is known of a node has changed, and nothing else.
proof fn lemma_restated(a: Seq<RNode>, b: Seq<RNode>, i: int)
    requires
        is_tree(a),
        0 <= i < a.len(),
        reachable(a, i),
        b.len() == a.len(),
        b[i].children == a[i].children,
        b[i].parent == a[i].parent,
        forall|j: int| 0 <= j < a.len() && j != i ==> b[j] == #[trigger] a[j],
    ensures
        is_tree(b),
        entries(b) == entries(a).insert(path_to(a, i), b[i].meta()),
        forall|p: Path| #[trigger] reach(b, 0, p) == reach(a, 0, p),
{
    assert forall|j: int| 0 <= j < b.len() implies sorted(
        names((#[trigger] b[j]).children@),
    ) by {
        assert(sorted(names(a[j].children@)));
    }
    assert forall|j: int, k: int|
        0 <= j < b.len() && 0 <= k < b[j].children@.len() implies #[trigger] linked(b, j, k) by {
        assert(b[j].children == a[j].children);
        assert(linked(a, j, k));
        let c = a[j].children@[k].1 as int;
        assert(b[c].parent == a[c].parent);
    }
    assert forall|j: int, k: int, l: int|
        0 <= j < b.len() && 0 <= k < b[j].children@.len() && 0 <= l < b[j].children@.len() && (
        #[trigger] b[j].children@[k]).1 == (#[trigger] b[j].children@[l]).1 implies k == l by {
        assert(b[j].children == a[j].children);
        assert(a[j].children@[k].1 == a[j].children@[l].1);
    }
    assert forall|p: Path| #[trigger] reach(b, 0, p) == reach(a, 0, p) by {
        lemma_restated_reach(a, b, i, p);
    }
    let home = path_to(a, i);
    assert(reach(a, 0, home) == Some(i));
    assert forall|p: Path| entries(b).contains_key(p) implies entries(b)[p] == entries(a).insert(
        home,
        b[i].meta(),
    )[p] by {
        let j = reach(a, 0, p)->0;
        lemma_reach_bounds(a, 0, p);
        if j == i {
            lemma_path_to(a, p);
        }
    }
    assert(entries(b) =~= entries(a).insert(home, b[i].meta()));
}

proof fn lemma_restated_reach(a: Seq<RNode>, b: Seq<RNode>, i: int, p: Path)
    requires
        is_tree(a),
        0 <= i < a.len(),
        b.len() == a.len(),
        b[i].children == a[i].children,
        forall|j: int| 0 <= j < a.len() && j != i ==> b[j] == #[trigger] a[j],
    ensures
        reach(b, 0, p) == reach(a, 0, p),
    decreases p.len(),
{
    if p.len() > 0 {
        lemma_restated_reach(a, b, i, p.drop_last());
        if let Some(j) = reach(a, 0, p.drop_last()) {
            lemma_reach_bounds(a, 0, p.drop_last());
            assert(b[j].children == a[j].children);
        }
    }
}

/// Adds `node` as child `name` of node `i`, whose place among the children is `at`.
fn grow(arena: &mut Vec<RNode>, i: usize, at: usize, name: &[u8], node: RNode) -> (r: usize)
    requires
        is_tree(old(arena)@),
        i < old(arena)@.len(),
        reachable(old(arena)@, i as int),
        node.parent == i,
        node.children@.len() == 0,
        at <= old(arena)@[i as int].children@.len(),
        forall|k: int|
            0 <= k < at ==> crate::lsda::order::bytes_lt(
                #[trigger] names(old(arena)@[i as int].children@)[k],
                name@,
            ),
        forall|k: int|
            at <= k < old(arena)@[i as int].children@.len() ==> crate::lsda::order::bytes_lt(
                name@,
                #[trigger] names(old(arena)@[i as int].children@)[k],
            ),
    ensures
        is_tree(final(arena)@),
        r == old(arena)@.len(),
        final(arena)@.len() == old(arena)@.len() + 1,
        ({
            let q = path_to(old(arena)@, i as int).push(name@);
            &&& entries(final(arena)@) == entries(old(arena)@).insert(q, node.meta())
            &&& !entries(old(arena)@).contains_key(q)
            &&& reachable(final(arena)@, r as int)
            &&& path_to(final(arena)@, r as int) == q
            &&& reachable(final(arena)@, i as int)
            &&& path_to(final(arena)@, i as int) == path_to(old(arena)@, i as int)
        }),
        !nodes(old(arena)@)[i as int].links.contains_key(name@),
        nodes(final(arena)@) == with_child(nodes(old(arena)@), i as int, name@, node.meta()),
{
    let ghost a = arena@;
    let ghost meta = node.meta();
    let idx: usize = arena.len();
    arena.push(node);
    arena[i].children.insert(at, (slice_to_vec(name), idx));
    proof {
        lemma_grown(a, arena@, i as int, at as int, name@, meta);
        lemma_grown_nodes(a, arena@, i as int, at as int, name@, meta);
    }
    idx
}

/// The length of the part of `b` in front of the first slash.
pub open spec fn to_slash(b: Seq<u8>) -> nat
    decreases b.len(),
{
    if b.len() == 0 || b[0] == 47 {
        0
    } else {
        1 + to_slash(b.drop_first())
    }
}

/// The names in a path: what stands between slashes, but for nothing at all.
pub open spec fn parts(b: Seq<u8>) -> Path
    decreases b.len(),
{
    let k = to_slash(b) as int;
    if b.len() == 0 {
        Seq::empty()
    } else if k >= b.len() {
        seq![b]
    } else if k == 0 {
        parts(b.skip(1))
    } else {
        seq![b.take(k)] + parts(b.skip(k + 1))
    }
}

/// The tree and the current directory.
pub struct Cursor {
    pub entries: Map<Path, SymMeta>,
    pub cwd: Path,
}

/// Goes down the names one by one: `..` goes up, a name that is not there becomes
/// a directory, and a dataset in the way ends the walk.
pub open spec fn walked(c: Cursor, names: Path) -> Cursor
    decreases names.len(),
{
    if names.len() == 0 {
        c
    } else {
        let rest = names.drop_first();
        let q = c.cwd.push(names[0]);
        if names[0] == seq![46u8, 46u8] {
            let up = if c.cwd.len() == 0 {
                c.cwd
            } else {
                c.cwd.drop_last()
            };
            walked(Cursor { entries: c.entries, cwd: up }, rest)
        } else if c.entries.contains_key(q) {
            if c.entries[q].type_ == 0 {
                walked(Cursor { entries: c.entries, cwd: q }, rest)
            } else {
                c
            }
        } else {
            walked(Cursor { entries: c.entries.insert(q, dir_meta()), cwd: q }, rest)
        }
    }
}

/// Goes to a path, which is absolute if it begins with a slash.
pub open spec fn went(c: Cursor, path: Seq<u8>) -> Cursor {
    let start = if path.len() > 0 && path[0] == 47 {
        Seq::empty()
    } else {
        c.cwd
    };
    walked(Cursor { entries: c.entries, cwd: start }, parts(path))
}

/// Goes to a path from node `i`, or from the root if it begins with a slash.
pub open spec fn node_went(n: Seq<NodeView>, i: int, path: Seq<u8>) -> (Seq<NodeView>, int) {
    node_walk(
        n,
        if path.len() > 0 && path[0] == 47 {
            0
        } else {
            i
        },
        parts(path),
    )
}

/// The tree, and node `cwd` as its current directory.
pub open spec fn cursor(a: Seq<RNode>, cwd: int) -> Cursor {
    Cursor { entries: entries(a), cwd: path_to(a, cwd) }
}

proof fn lemma_to_slash(b: Seq<u8>, k: int)
    requires
        0 <= k <= b.len(),
        forall|j: int| 0 <= j < k ==> b[j] != 47,
        k == b.len() || b[k] == 47,
    ensures
        to_slash(b) == k,
    decreases k,
{
    if k > 0 {
        lemma_to_slash(b.drop_first(), k - 1);
    }
}

/// Node 0 is the root.
pub proof fn lemma_root(a: Seq<RNode>)
    requires
        is_tree(a),
    ensures
        reachable(a, 0),
        path_to(a, 0) == Path::empty(),
{
    assert(reach(a, 0, Path::empty()) == Some(0int));
    lemma_path_to(a, Path::empty());
}

/// The directory above node `i`.
proof fn lemma_up(a: Seq<RNode>, i: int)
    requires
        is_tree(a),
        0 <= i < a.len(),
        reachable(a, i),
    ensures
        a[i].parent < a.len(),
        reachable(a, a[i].parent as int),
        path_to(a, a[i].parent as int) == if path_to(a, i).len() == 0 {
            path_to(a, i)
        } else {
            path_to(a, i).drop_last()
        },
{
    let p = path_to(a, i);
    assert(reach(a, 0, p) == Some(i));
    if p.len() == 0 {
        assert(p =~= Path::empty());
        lemma_root(a);
    } else {
        lemma_reach_parent(a, p);
        lemma_path_to(a, p.drop_last());
        lemma_reach_bounds(a, 0, p.drop_last());
    }
}

/// The child of node `i` that has the name.
proof fn lemma_down(a: Seq<RNode>, i: int, k: int)
    requires
        is_tree(a),
        0 <= i < a.len(),
        reachable(a, i),
        0 <= k < a[i].children@.len(),
    ensures
        ({
            let c = a[i].children@[k].1 as int;
            let q = path_to(a, i).push(a[i].children@[k].0@);
            &&& c < a.len()
            &&& reachable(a, c)
            &&& path_to(a, c) == q
            &&& entries(a).contains_key(q)
            &&& entries(a)[q] == a[c].meta()
        }),
{
    let p = path_to(a, i);
    let name = a[i].children@[k].0@;
    assert(reach(a, 0, p) == Some(i));
    lemma_reach_push(a, 0, p, name);
    let ns = names(a[i].children@);
    assert(ns[k] == name);
    assert(ns.contains(name));
    lemma_one_place(ns, k, ns.index_of(name));
    assert(linked(a, i, k));
    lemma_path_to(a, p.push(name));
}

/// Child `k` is the one that its name leads to.
proof fn lemma_child_link(a: Seq<RNode>, i: int, k: int)
    requires
        is_tree(a),
        0 <= i < a.len(),
        0 <= k < a[i].children@.len(),
    ensures
        nodes(a)[i].links.contains_key(a[i].children@[k].0@),
        nodes(a)[i].links[a[i].children@[k].0@] == a[i].children@[k].1,
        a[i].children@[k].1 < a.len(),
{
    let ns = names(a[i].children@);
    let name = a[i].children@[k].0@;
    assert(ns[k] == name);
    assert(ns.contains(name));
    lemma_one_place(ns, k, ns.index_of(name));
    assert(linked(a, i, k));
    assert(a[i].link(name) == Some(a[i].children@[k].1 as int));
}

/// One step of a walk: up, or down to the child `part`, which is made if it is not
/// there. Nothing happens, and the answer is `false`, when a dataset has the name.
fn step(arena: &mut Vec<RNode>, cwd: &mut usize, part: &[u8]) -> (r: bool)
    requires
        is_tree(old(arena)@),
        *old(cwd) < old(arena)@.len(),
        reachable(old(arena)@, *old(cwd) as int),
    ensures
        is_tree(final(arena)@),
        *final(cwd) < final(arena)@.len(),
        reachable(final(arena)@, *final(cwd) as int),
        forall|rest: Path| #[trigger]
            walked(cursor(old(arena)@, *old(cwd) as int), seq![part@] + rest) == if r {
                walked(cursor(final(arena)@, *final(cwd) as int), rest)
            } else {
                cursor(final(arena)@, *final(cwd) as int)
            },
        forall|rest: Path| #[trigger]
            node_walk(nodes(old(arena)@), *old(cwd) as int, seq![part@] + rest) == if r {
                node_walk(nodes(final(arena)@), *final(cwd) as int, rest)
            } else {
                (nodes(final(arena)@), *final(cwd) as int)
            },
{
    let ghost a = arena@;
    proof {
        assert forall|rest: Path| #[trigger] (seq![part@] + rest).drop_first() == rest by {
            assert((seq![part@] + rest).drop_first() =~= rest);
        }
    }
    let ghost dots = seq![46u8, 46u8];
    if part.len() == 2 && part[0] == 46 && part[1] == 46 {
        proof {
            assert(part@ =~= dots);
            lemma_up(a, *cwd as int);
        }
        *cwd = arena[*cwd].parent;
        return true;
    }
    assert(part@ != dots) by {
        if part@ == dots {
            assert(part@[0] == 46 && part@[1] == 46);
        }
    }
    match search(&arena[*cwd].children, part) {
        Ok(k) => {
            let ci: usize = arena[*cwd].children[k].1;
            proof {
                lemma_down(a, *cwd as int, k as int);
                lemma_child_link(a, *cwd as int, k as int);
            }
            if arena[ci].type_ == 0 {
                *cwd = ci;
                true
            } else {
                false
            }
        },
        Err(at) => {
            let node = RNode::dir(*cwd);
            let idx: usize = grow(arena, *cwd, at, part, node);
            *cwd = idx;
            true
        },
    }
}

/// Goes to a path, absolute or from the current directory, making the directories
/// that do not exist.
pub fn cd(arena: &mut Vec<RNode>, cwd: &mut usize, path: &str)
    requires
        is_tree(old(arena)@),
        *old(cwd) < old(arena)@.len(),
        reachable(old(arena)@, *old(cwd) as int),
    ensures
        is_tree(final(arena)@),
        *final(cwd) < final(arena)@.len(),
        reachable(final(arena)@, *final(cwd) as int),
        cursor(final(arena)@, *final(cwd) as int) == went(
            cursor(old(arena)@, *old(cwd) as int),
            vstd::utf8::encode_utf8(path@),
        ),
        (nodes(final(arena)@), *final(cwd) as int) == node_went(
            nodes(old(arena)@),
            *old(cwd) as int,
            vstd::utf8::encode_utf8(path@),
        ),
{
    let b: &[u8] = path.as_bytes();
    let ghost goal = went(cursor(arena@, *cwd as int), b@);
    let ghost first = cursor(arena@, *cwd as int);
    let ghost end = node_went(nodes(arena@), *cwd as int, b@);
    if b.len() > 0 && b[0] == 47 {
        proof {
            lemma_root(arena@);
        }
        *cwd = 0;
    }
    let mut i: usize = 0;
    assert(b@.skip(0) =~= b@);
    while i < b.len()
        invariant
            i <= b@.len(),
            is_tree(arena@),
            *cwd < arena@.len(),
            reachable(arena@, *cwd as int),
            walked(cursor(arena@, *cwd as int), parts(b@.skip(i as int))) == goal,
            node_walk(nodes(arena@), *cwd as int, parts(b@.skip(i as int))) == end,
            end == node_went(nodes(old(arena)@), *old(cwd) as int, b@),
            goal == went(first, b@),
            first == cursor(old(arena)@, *old(cwd) as int),
            b@ == vstd::utf8::encode_utf8(path@),
        decreases b@.len() - i,
    {
        let ghost rest = b@.skip(i as int);
        let mut k: usize = i;
        while k < b.len() && b[k] != 47
            invariant
                i <= k <= b@.len(),
                forall|j: int| i <= j < k ==> b@[j] != 47,
            decreases b@.len() - k,
        {
            k = k + 1;
        }
        let part: &[u8] = vstd::slice::slice_subrange(b, i, k);
        proof {
            lemma_to_slash(rest, k - i);
            if k < b@.len() {
                assert(rest.skip(k - i + 1) =~= b@.skip(k + 1));
                assert(rest.skip(1) =~= b@.skip(i + 1));
                assert(rest.take(k - i) =~= part@);
            } else {
                assert(rest =~= part@);
                assert(b@.skip(b@.len() as int) =~= Seq::<u8>::empty());
                assert(seq![part@] =~= seq![part@] + Path::empty());
            }
        }
        if k > i {
            let more: bool = step(arena, cwd, part);
            if !more {
                return;
            }
        }
        i = if k < b.len() { k + 1 } else { k };
    }
    assert(b@.skip(i as int) =~= Seq::<u8>::empty());
}

/// The decoded fields of a dataset's record.
pub struct RawEntry {
    pub name: Vec<u8>,
    pub type_: u8,
    pub offset: u64,
    pub length: u64,
}

impl RawEntry {
    /// What the record says of a dataset in file `fi`.
    pub open spec fn meta(self, fi: usize) -> SymMeta {
        SymMeta {
            type_: self.type_,
            offset: self.offset,
            length: self.length,
            file_index: fi,
            name_len: self.name@.len() as usize,
        }
    }
}

/// Declares a dataset in directory `cwd`, or states anew what is known of it.
pub fn add_entry(arena: &mut Vec<RNode>, cwd: usize, entry: RawEntry, fi: usize)
    requires
        is_tree(old(arena)@),
        cwd < old(arena)@.len(),
        reachable(old(arena)@, cwd as int),
    ensures
        is_tree(final(arena)@),
        cwd < final(arena)@.len(),
        reachable(final(arena)@, cwd as int),
        path_to(final(arena)@, cwd as int) == path_to(old(arena)@, cwd as int),
        entries(final(arena)@) == entries(old(arena)@).insert(
            path_to(old(arena)@, cwd as int).push(entry.name@),
            entry.meta(fi),
        ),
        nodes(final(arena)@) == node_declared(
            nodes(old(arena)@),
            cwd as int,
            entry.name@,
            entry.meta(fi),
        ),
{
    let ghost a = arena@;
    let name_len: usize = entry.name.len();
    match search(&arena[cwd].children, entry.name.as_slice()) {
        Ok(k) => {
            let idx: usize = arena[cwd].children[k].1;
            proof {
                lemma_down(a, cwd as int, k as int);
            }
            arena[idx].type_ = entry.type_;
            arena[idx].offset = entry.offset;
            arena[idx].length = entry.length;
            arena[idx].file_index = fi;
            arena[idx].name_len = name_len;
            proof {
                lemma_restated(a, arena@, idx as int);
                lemma_child_link(a, cwd as int, k as int);
                let want = node_declared(nodes(a), cwd as int, entry.name@, entry.meta(fi));
                assert forall|j: int| 0 <= j < a.len() implies nodes(arena@)[j] == want[j] by {
                    assert(arena@[j].children == a[j].children);
                    assert(arena@[j]@.links =~= a[j]@.links);
                }
                assert(nodes(arena@) =~= want);
                let p = path_to(a, cwd as int);
                assert(reach(a, 0, p) == Some(cwd as int));
                assert(reach(arena@, 0, p) == Some(cwd as int));
                lemma_path_to(arena@, p);
            }
        },
        Err(at) => {
            let node = RNode {
                type_: entry.type_,
                offset: entry.offset,
                length: entry.length,
                file_index: fi,
                name_len,
                parent: cwd,
                children: Vec::new(),
            };
            grow(arena, cwd, at, entry.name.as_slice(), node);
        },
    }
}

/// What of the entries can be seen: a path leads through directories only.
pub open spec fn visible(m: Map<Path, SymMeta>, p: Path) -> bool {
    &&& m.contains_key(p)
    &&& forall|k: int|
        0 <= k < p.len() ==> m.contains_key(#[trigger] p.take(k)) && m[p.take(k)].type_ == 0
}

/// The tree that entries describe: the visible paths, with the datasets at them.
pub open spec fn frozen(m: Map<Path, SymMeta>) -> Map<Path, Option<SymMeta>> {
    Map::new(
        |p: Path| visible(m, p),
        |p: Path|
            if m[p].type_ == 0 {
                None
            } else {
                Some(m[p])
            },
    )
}

/// A way down, first name first.
proof fn lemma_reach_front(a: Seq<RNode>, i: int, p: Path)
    requires
        p.len() > 0,
    ensures
        reach(a, i, p) == match a[i].link(p[0]) {
            Some(c) => reach(a, c, p.drop_first()),
            None => None,
        },
    decreases p.len(),
{
    let q = p.drop_last();
    if q.len() > 0 {
        lemma_reach_front(a, i, q);
        assert(q[0] == p[0]);
        assert(q.drop_first() =~= p.drop_first().drop_last());
        assert(p.drop_first().last() == p.last());
    } else {
        assert(q =~= Path::empty());
        assert(reach(a, i, q) == Some(i));
        assert(p.drop_first() =~= Path::empty());
        assert(p.last() == p[0]);
    }
}

/// What can be seen through a child is what can be seen from it.
proof fn lemma_visible_front(a: Seq<RNode>, i: int, p: Path)
    requires
        p.len() > 0,
    ensures
        visible(entries_from(a, i), p) <==> a[i].type_ == 0 && (a[i].link(p[0]) matches Some(c)
            && visible(entries_from(a, c), p.drop_first())),
{
    let m = entries_from(a, i);
    let rest = p.drop_first();
    lemma_reach_front(a, i, p);
    if visible(m, p) {
        assert(p.take(0) =~= Path::empty());
        assert(m.contains_key(p.take(0)));
        let c = a[i].link(p[0])->0;
        let n = entries_from(a, c);
        assert forall|k: int| 0 <= k < rest.len() implies n.contains_key(#[trigger] rest.take(k))
            && n[rest.take(k)].type_ == 0 by {
            let q = p.take(k + 1);
            assert(m.contains_key(q));
            lemma_reach_front(a, i, q);
            assert(q.drop_first() =~= rest.take(k));
        }
    }
    if a[i].type_ == 0 {
        if let Some(c) = a[i].link(p[0]) {
            let n = entries_from(a, c);
            if visible(n, rest) {
                assert forall|k: int| 0 <= k < p.len() implies m.contains_key(#[trigger] p.take(k))
                    && m[p.take(k)].type_ == 0 by {
                    if k == 0 {
                        assert(p.take(0) =~= Path::empty());
                    } else {
                        let q = p.take(k);
                        lemma_reach_front(a, i, q);
                        assert(q.drop_first() =~= rest.take(k - 1));
                        assert(n.contains_key(rest.take(k - 1)));
                    }
                }
            }
        }
    }
}

/// `m` holds the trees of the first `n` children of node `i`.
pub open spec fn built(a: Seq<RNode>, i: int, m: Seq<(Vec<u8>, SymNode)>, n: int) -> bool {
    &&& m.len() == n
    &&& forall|k: int|
        0 <= k < n ==> {
            &&& (#[trigger] m[k]).0@ == a[i].children@[k].0@
            &&& m[k].1.wf()
            &&& m[k].1.contents() == frozen(entries_from(a, a[i].children@[k].1 as int))
        }
}

proof fn lemma_built(a: Seq<RNode>, i: int, m: Vec<(Vec<u8>, SymNode)>)
    requires
        is_tree(a),
        0 <= i < a.len(),
        a[i].type_ == 0,
        built(a, i, m@, a[i].children@.len() as int),
    ensures
        SymNode::Dir(m).wf(),
        SymNode::Dir(m).contents() == frozen(entries_from(a, i)),
{
    let n = SymNode::Dir(m);
    assert(names(m@) =~= names(a[i].children@));
    lemma_dir_wf(m);
    let want = frozen(entries_from(a, i));
    let got = n.contents();
    assert forall|p: Path| #[trigger]
        got.dom().contains(p) == want.dom().contains(p) && (got.dom().contains(p) ==> got[p]
            == want[p]) by {
        if p.len() == 0 {
            assert(reach(a, i, p) == Some(i));
            assert(visible(entries_from(a, i), p));
        } else {
            lemma_visible_front(a, i, p);
            lemma_reach_front(a, i, p);
            let ns = names(m@);
            if ns.contains(p[0]) {
                let k = ns.index_of(p[0]);
                let c = a[i].children@[k].1 as int;
                let rest = p.drop_first();
                assert(a[i].link(p[0]) == Some(c));
                assert(n.find(p) == m@[k].1.find(rest));
                let sub = m@[k].1.contents();
                assert(sub.contains_key(rest) == got.contains_key(p));
                assert(sub == frozen(entries_from(a, c)));
                if got.contains_key(p) {
                    assert(got[p] == sub[rest]);
                    assert(entries_from(a, c)[rest] == entries_from(a, i)[p]);
                }
            }
        }
    }
    assert(got =~= want);
}

/// The tree below node `idx`, for reading.
pub fn build_symnode(arena: &[RNode], idx: usize) -> (r: SymNode)
    requires
        is_tree(arena@),
        idx < arena@.len(),
    ensures
        r.wf(),
        r.contents() == frozen(entries_from(arena@, idx as int)),
    decreases arena@.len() - idx,
{
    let n = &arena[idx];
    if n.type_ == 0 {
        let mut m: Vec<(Vec<u8>, SymNode)> = Vec::new();
        for k in 0..n.children.len()
            invariant
                is_tree(arena@),
                idx < arena@.len(),
                *n == arena@[idx as int],
                built(arena@, idx as int, m@, k as int),
        {
            let ci: usize = n.children[k].1;
            assert(linked(arena@, idx as int, k as int));
            let name: Vec<u8> = slice_to_vec(n.children[k].0.as_slice());
            let sub: SymNode = build_symnode(arena, ci);
            m.push((name, sub));
        }
        proof {
            lemma_built(arena@, idx as int, m);
        }
        SymNode::Dir(m)
    } else {
        let meta = SymMeta {
            type_: n.type_,
            offset: n.offset,
            length: n.length,
            file_index: n.file_index,
            name_len: n.name_len,
        };
        let r: SymNode = SymNode::Leaf(meta);
        proof {
            let a = arena@;
            let i = idx as int;
            let got = r.contents();
            let want = frozen(entries_from(a, i));
            assert forall|p: Path| #[trigger]
                got.dom().contains(p) == want.dom().contains(p) && (got.dom().contains(p)
                    ==> got[p] == want[p]) by {
                if p.len() > 0 {
                    lemma_visible_front(a, i, p);
                } else {
                    assert(reach(a, i, p) == Some(i));
                    assert(visible(entries_from(a, i), p));
                }
            }
            assert(got =~= want);
        }
        r
    }
}

} // verus!
