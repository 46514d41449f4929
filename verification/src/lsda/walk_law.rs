//! What going to directories does to the nodes of a tree.

use crate::lsda::arena::{
    dir_meta, is_tree, linked, node_walk, node_went, nodes, parts, with_child, NodeView, RNode,
};
use crate::lsda::order::names;
use crate::lsda::tree::Path;
use vstd::prelude::*;

verus! {

/// `..`, the name of the directory above.
pub open spec fn up() -> Seq<u8> {
    seq![46u8, 46u8]
}

/// Link `x` of node `i` leads to a later node, which names `i` as its parent.
pub open spec fn leads_down(n: Seq<NodeView>, i: int, x: Seq<u8>) -> bool {
    let k = n[i].links[x];
    i < k < n.len() && n[k].parent == i
}

/// The root is in front and its own parent, parents are nodes, and children come after
/// the node that links to them and name it as their parent.
pub open spec fn is_forest(n: Seq<NodeView>) -> bool {
    &&& n.len() >= 1
    &&& n[0].parent == 0
    &&& forall|i: int| 0 <= i < n.len() ==> 0 <= (#[trigger] n[i]).parent < n.len()
    &&& forall|i: int, x: Seq<u8>|
        0 <= i < n.len() && #[trigger] n[i].links.contains_key(x) ==> leads_down(n, i, x)
}

/// The nodes of a tree, each with a node as its parent, have that order.
pub proof fn law_trees_are_forests(a: Seq<RNode>)
    requires
        is_tree(a),
        forall|i: int| 0 <= i < a.len() ==> (#[trigger] a[i]).parent < a.len(),
    ensures
        is_forest(nodes(a)),
{
    let n = nodes(a);
    assert forall|i: int, x: Seq<u8>|
        0 <= i < n.len() && #[trigger] n[i].links.contains_key(x) implies leads_down(n, i, x) by {
        let ns = names(a[i].children@);
        assert(a[i].link(x) is Some);
        let k = ns.index_of(x);
        assert(ns[k] == x);
        assert(linked(a, i, k));
    }
    assert forall|i: int| 0 <= i < n.len() implies 0 <= (#[trigger] n[i]).parent < n.len() by {
        assert(a[i].parent < a.len());
    }
}

/// The node is a directory, and so is every node above it.
pub open spec fn in_directories(n: Seq<NodeView>, i: int) -> bool
    decreases i,
{
    &&& 0 <= i < n.len()
    &&& n[i].meta.type_ == 0
    &&& i == 0 || (0 <= n[i].parent < i && in_directories(n, n[i].parent))
}

/// All nodes of `n` are in `m` under their numbers, with what is known of them, their
/// parents and their children; the nodes of `m` behind them are directories.
pub open spec fn keeps_nodes(n: Seq<NodeView>, m: Seq<NodeView>) -> bool {
    &&& n.len() <= m.len()
    &&& forall|i: int|
        0 <= i < n.len() ==> (#[trigger] m[i]).meta == n[i].meta && m[i].parent == n[i].parent
    &&& forall|i: int, x: Seq<u8>|
        0 <= i < n.len() && #[trigger] n[i].links.contains_key(x) ==> m[i].links.contains_key(x)
            && m[i].links[x] == n[i].links[x]
    &&& forall|i: int| n.len() <= i < m.len() ==> (#[trigger] m[i]).meta == dir_meta()
}

proof fn lemma_keeps_trans(a: Seq<NodeView>, b: Seq<NodeView>, c: Seq<NodeView>)
    requires
        keeps_nodes(a, b),
        keeps_nodes(b, c),
    ensures
        keeps_nodes(a, c),
{
    assert forall|i: int| 0 <= i < a.len() implies (#[trigger] c[i]).meta == a[i].meta
        && c[i].parent == a[i].parent by {
        assert(b[i].meta == a[i].meta);
    }
    assert forall|i: int, x: Seq<u8>|
        0 <= i < a.len() && #[trigger] a[i].links.contains_key(x) implies c[i].links.contains_key(x)
        && c[i].links[x] == a[i].links[x] by {
        assert(b[i].links.contains_key(x));
    }
    assert forall|i: int| a.len() <= i < c.len() implies (#[trigger] c[i]).meta == dir_meta() by {
        if i < b.len() {
            assert(b[i].meta == dir_meta());
        }
    }
}

proof fn lemma_in_directories_kept(n: Seq<NodeView>, m: Seq<NodeView>, i: int)
    requires
        keeps_nodes(n, m),
        in_directories(n, i),
    ensures
        in_directories(m, i),
    decreases i,
{
    assert(m[i].meta == n[i].meta);
    if i > 0 {
        lemma_in_directories_kept(n, m, n[i].parent);
    }
}

proof fn lemma_with_child(n: Seq<NodeView>, i: int, name: Seq<u8>)
    requires
        is_forest(n),
        0 <= i < n.len(),
        !n[i].links.contains_key(name),
    ensures
        is_forest(with_child(n, i, name, dir_meta())),
        keeps_nodes(n, with_child(n, i, name, dir_meta())),
{
    let m = with_child(n, i, name, dir_meta());
    assert forall|j: int, x: Seq<u8>|
        0 <= j < m.len() && #[trigger] m[j].links.contains_key(x) implies leads_down(m, j, x) by {
        if j < n.len() && !(j == i && x == name) {
            assert(n[j].links.contains_key(x));
            assert(leads_down(n, j, x));
        }
    }
    assert forall|j: int| 0 <= j < m.len() implies 0 <= (#[trigger] m[j]).parent < m.len() by {
        if j < n.len() {
            assert(0 <= n[j].parent < n.len());
        }
    }
}

/// A walk keeps the nodes.
proof fn lemma_walk_keeps(n: Seq<NodeView>, i: int, w: Path)
    requires
        is_forest(n),
        0 <= i < n.len(),
    ensures
        is_forest(node_walk(n, i, w).0),
        keeps_nodes(n, node_walk(n, i, w).0),
        0 <= node_walk(n, i, w).1 < node_walk(n, i, w).0.len(),
    decreases w.len(),
{
    if w.len() > 0 {
        let rest = w.drop_first();
        if w[0] == up() {
            assert(0 <= n[i].parent < n.len());
            lemma_walk_keeps(n, n[i].parent, rest);
        } else if n[i].links.contains_key(w[0]) {
            assert(leads_down(n, i, w[0]));
            if n[n[i].links[w[0]]].meta.type_ == 0 {
                lemma_walk_keeps(n, n[i].links[w[0]], rest);
            }
        } else {
            let m = with_child(n, i, w[0], dir_meta());
            lemma_with_child(n, i, w[0]);
            lemma_walk_keeps(m, n.len() as int, rest);
            lemma_keeps_trans(n, m, node_walk(m, n.len() as int, rest).0);
        }
    }
}

/// A walk through directories ends in one.
proof fn lemma_walk_ends(n: Seq<NodeView>, i: int, w: Path)
    requires
        is_forest(n),
        in_directories(n, i),
    ensures
        in_directories(node_walk(n, i, w).0, node_walk(n, i, w).1),
    decreases w.len(),
{
    if w.len() > 0 {
        let rest = w.drop_first();
        if w[0] == up() {
            if i == 0 {
                assert(n[i].parent == 0);
            }
            lemma_walk_ends(n, n[i].parent, rest);
        } else if n[i].links.contains_key(w[0]) {
            let k = n[i].links[w[0]];
            assert(leads_down(n, i, w[0]));
            if n[k].meta.type_ == 0 {
                assert(in_directories(n, k));
                lemma_walk_ends(n, k, rest);
            }
        } else {
            let m = with_child(n, i, w[0], dir_meta());
            let k = n.len() as int;
            lemma_with_child(n, i, w[0]);
            lemma_in_directories_kept(n, m, i);
            assert(m[k].parent == i && m[k].meta == dir_meta());
            assert(in_directories(m, k));
            lemma_walk_ends(m, k, rest);
        }
    }
}

/// Walking again over nodes that hold what the first walk made adds nothing and ends
/// where it ended.
proof fn lemma_walk_again(n: Seq<NodeView>, i: int, w: Path, m: Seq<NodeView>)
    requires
        is_forest(n),
        0 <= i < n.len(),
        keeps_nodes(node_walk(n, i, w).0, m),
    ensures
        node_walk(m, i, w) == (m, node_walk(n, i, w).1),
    decreases w.len(),
{
    let end = node_walk(n, i, w).0;
    lemma_walk_keeps(n, i, w);
    lemma_keeps_trans(n, end, m);
    if w.len() > 0 {
        let rest = w.drop_first();
        if w[0] == up() {
            assert(m[i].parent == n[i].parent);
            assert(0 <= n[i].parent < n.len());
            lemma_walk_again(n, n[i].parent, rest, m);
        } else if n[i].links.contains_key(w[0]) {
            let k = n[i].links[w[0]];
            assert(leads_down(n, i, w[0]));
            assert(m[i].links.contains_key(w[0]) && m[i].links[w[0]] == k);
            assert(m[k].meta == n[k].meta);
            if n[k].meta.type_ == 0 {
                lemma_walk_again(n, k, rest, m);
            }
        } else {
            let g = with_child(n, i, w[0], dir_meta());
            let k = n.len() as int;
            lemma_with_child(n, i, w[0]);
            lemma_walk_keeps(g, k, rest);
            lemma_keeps_trans(g, end, m);
            assert(g[i].links.contains_key(w[0]) && g[i].links[w[0]] == k);
            assert(m[i].links.contains_key(w[0]) && m[i].links[w[0]] == k);
            assert(m[k].meta == g[k].meta);
            lemma_walk_again(g, k, rest, m);
        }
    }
}

/// Going to a path keeps every node under its number, with what is known of it, its
/// parent and its children; the nodes that it adds are directories behind the others.
pub proof fn law_going_keeps_nodes(n: Seq<NodeView>, i: int, path: Seq<u8>)
    requires
        is_forest(n),
        0 <= i < n.len(),
    ensures
        ({
            let r = node_went(n, i, path);
            &&& is_forest(r.0)
            &&& keeps_nodes(n, r.0)
            &&& 0 <= r.1 < r.0.len()
        }),
{
    lemma_walk_keeps(
        n,
        if path.len() > 0 && path[0] == 47 {
            0
        } else {
            i
        },
        parts(path),
    );
}

/// Going to an absolute path ends in a directory, wherever it began, and going there a
/// second time changes nothing.
pub proof fn law_absolute_path(n: Seq<NodeView>, i: int, j: int, path: Seq<u8>)
    requires
        is_forest(n),
        n[0].meta.type_ == 0,
        path.len() > 0,
        path[0] == 47,
    ensures
        ({
            let r = node_went(n, i, path);
            &&& node_went(n, j, path) == r
            &&& 0 <= r.1 < r.0.len()
            &&& r.0[r.1].meta.type_ == 0
            &&& node_went(r.0, r.1, path) == r
        }),
{
    let w = parts(path);
    lemma_walk_keeps(n, 0, w);
    lemma_walk_ends(n, 0, w);
    let m = node_walk(n, 0, w).0;
    lemma_walk_again(n, 0, w, m);
}

/// Above the root is the root.
pub proof fn law_root_is_its_own_parent(n: Seq<NodeView>, w: Path)
    requires
        is_forest(n),
        w.len() > 0,
        w[0] == up(),
    ensures
        node_walk(n, 0, w) == node_walk(n, 0, w.drop_first()),
{
}

} // verus!
