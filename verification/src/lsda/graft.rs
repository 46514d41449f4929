//! Changes to trees of named nodes.

use crate::lsda::order::{
    lemma_insert_sorted, lemma_one_place, lemma_remove_sorted, names, search, sorted,
};
use crate::lsda::tree::{
    child_of, in_order, lemma_child_at, lemma_child_wf, lemma_dir_wf, lemma_find_child, Path,
    SymNode,
};
use vstd::prelude::*;
use vstd::slice::slice_to_vec;

verus! {

/// The names of a path given as texts.
pub open spec fn segments(path: Seq<&str>) -> Path {
    Seq::new(path.len(), |i: int| vstd::utf8::encode_utf8(path[i]@))
}

/// `q` is `p`, or lies below it.
pub open spec fn under(p: Path, q: Path) -> bool {
    p.len() <= q.len() && q.take(p.len() as int) == p
}

/// What a tree holds once `l` is at path `p`: the directories on the way are there,
/// and whatever was at `p` or below it is gone.
pub open spec fn with_leaf<L>(m: Map<Path, Option<L>>, p: Path, l: L) -> Map<Path, Option<L>> {
    Map::new(
        |q: Path| q == p || (under(q, p) || m.contains_key(q)) && !under(p, q),
        |q: Path|
            if q == p {
                Some(l)
            } else if m.contains_key(q) {
                m[q]
            } else {
                None
            },
    )
}

/// What a tree holds without what is at path `p` and below it.
pub open spec fn without<L>(m: Map<Path, Option<L>>, p: Path) -> Map<Path, Option<L>> {
    Map::new(|q: Path| m.contains_key(q) && !under(p, q), |q: Path| m[q])
}

/// The first `j` names of `p` lead to a leaf, so nothing can be put below.
pub open spec fn blocks<L>(m: Map<Path, Option<L>>, p: Path, j: int) -> bool {
    1 <= j < p.len() && m.contains_key(p.take(j)) && m[p.take(j)] is Some
}

/// `b` is the list `a` with `c` as the child `name`, or without such a child.
pub open spec fn relisted<L>(
    a: Seq<(Vec<u8>, SymNode<L>)>,
    b: Seq<(Vec<u8>, SymNode<L>)>,
    name: Seq<u8>,
    c: Option<SymNode<L>>,
) -> bool {
    &&& child_of(b, name) == c
    &&& forall|n: Seq<u8>| n != name ==> #[trigger] child_of(b, n) == child_of(a, n)
}

proof fn lemma_replaced<L>(
    a: Seq<(Vec<u8>, SymNode<L>)>,
    b: Seq<(Vec<u8>, SymNode<L>)>,
    i: int,
    c: SymNode<L>,
)
    requires
        sorted(names(a)),
        0 <= i < a.len(),
        b.len() == a.len(),
        b[i].0@ == a[i].0@,
        b[i].1 == c,
        forall|k: int| 0 <= k < a.len() && k != i ==> b[k] == #[trigger] a[k],
    ensures
        sorted(names(b)),
        relisted(a, b, a[i].0@, Some(c)),
{
    assert(names(b) =~= names(a));
    lemma_child_at(b, i);
    assert forall|n: Seq<u8>| n != a[i].0@ implies #[trigger] child_of(b, n) == child_of(a, n) by {
        if names(a).contains(n) {
            let k = names(a).index_of(n);
            assert(names(a)[k] == n);
            assert(k != i);
        }
    }
}

proof fn lemma_inserted<L>(
    a: Seq<(Vec<u8>, SymNode<L>)>,
    b: Seq<(Vec<u8>, SymNode<L>)>,
    i: int,
    name: Seq<u8>,
    c: SymNode<L>,
)
    requires
        sorted(names(a)),
        0 <= i <= a.len(),
        !names(a).contains(name),
        b.len() == a.len() + 1,
        b[i].0@ == name,
        b[i].1 == c,
        forall|k: int| 0 <= k < i ==> b[k] == #[trigger] a[k],
        forall|k: int| i <= k < a.len() ==> b[k + 1] == #[trigger] a[k],
        forall|k: int| 0 <= k < i ==> crate::lsda::order::bytes_lt(#[trigger] names(a)[k], name),
        forall|k: int|
            i <= k < a.len() ==> crate::lsda::order::bytes_lt(name, #[trigger] names(a)[k]),
    ensures
        sorted(names(b)),
        relisted(a, b, name, Some(c)),
{
    assert(names(b) =~= names(a).insert(i, name));
    lemma_insert_sorted(names(a), i, name);
    lemma_child_at(b, i);
    assert forall|n: Seq<u8>| n != name implies #[trigger] child_of(b, n) == child_of(a, n) by {
        if names(a).contains(n) {
            let k = names(a).index_of(n);
            assert(names(a)[k] == n);
            let m = if k < i {
                k
            } else {
                k + 1
            };
            assert(b[m] == a[k]);
            lemma_child_at(b, m);
        } else if names(b).contains(n) {
            let m = names(b).index_of(n);
            assert(names(b)[m] == n);
            let k = if m < i {
                m
            } else {
                m - 1
            };
            assert(b[m] == a[k]);
            assert(names(a)[k] == n);
            assert(names(a).contains(n));
        }
    }
}

proof fn lemma_removed<L>(a: Seq<(Vec<u8>, SymNode<L>)>, i: int)
    requires
        sorted(names(a)),
        0 <= i < a.len(),
    ensures
        sorted(names(a.remove(i))),
        relisted(a, a.remove(i), a[i].0@, None),
{
    let b = a.remove(i);
    assert(names(b) =~= names(a).remove(i));
    lemma_remove_sorted(names(a), i);
    if names(b).contains(a[i].0@) {
        let m = names(b).index_of(a[i].0@);
        let k = if m < i {
            m
        } else {
            m + 1
        };
        assert(names(b)[m] == names(a)[k]);
        assert(names(a)[i] == a[i].0@);
        lemma_one_place(names(a), i, k);
    }
    assert forall|n: Seq<u8>| n != a[i].0@ implies #[trigger] child_of(b, n) == child_of(a, n) by {
        if names(a).contains(n) {
            let k = names(a).index_of(n);
            assert(names(a)[k] == n);
            assert(k != i);
            let m = if k < i {
                k
            } else {
                k - 1
            };
            assert(b[m] == a[k]);
            lemma_child_at(b, m);
        } else if names(b).contains(n) {
            let m = names(b).index_of(n);
            assert(names(b)[m] == n);
            let k = if m < i {
                m
            } else {
                m + 1
            };
            assert(b[m] == a[k]);
            assert(names(a)[k] == n);
            assert(names(a).contains(n));
        }
    }
}

/// What a directory holds, name by name.
pub proof fn lemma_contents_step<L>(m: Vec<(Vec<u8>, SymNode<L>)>, q: Path)
    ensures
        ({
            let all = SymNode::Dir(m).contents();
            &&& q.len() == 0 ==> all.contains_key(q) && all[q] is None
            &&& q.len() > 0 ==> match child_of(m@, q[0]) {
                None => !all.contains_key(q),
                Some(c) => {
                    &&& all.contains_key(q) == c.contents().contains_key(q.drop_first())
                    &&& all.contains_key(q) ==> all[q] == c.contents()[q.drop_first()]
                },
            }
        }),
{
}

/// Lying below goes name by name.
proof fn lemma_under_step(p: Path, q: Path)
    requires
        p.len() > 0,
    ensures
        under(p, q) <==> q.len() > 0 && p[0] == q[0] && under(p.drop_first(), q.drop_first()),
        q.len() > 0 && p[0] == q[0] ==> (p == q <==> p.drop_first() == q.drop_first()),
{
    if under(p, q) {
        assert(q.take(p.len() as int)[0] == q[0]);
        assert(q.drop_first().take(p.len() - 1) =~= q.take(p.len() as int).drop_first());
    }
    if q.len() > 0 && p[0] == q[0] {
        if under(p.drop_first(), q.drop_first()) {
            assert(q.take(p.len() as int) =~= seq![q[0]] + q.drop_first().take(p.len() - 1));
            assert(p =~= seq![p[0]] + p.drop_first());
        }
        if p.drop_first() == q.drop_first() {
            assert(p =~= seq![p[0]] + p.drop_first());
            assert(q =~= seq![q[0]] + q.drop_first());
        }
    }
}

/// A leaf put below a child is put below the directory.
proof fn lemma_with_leaf<L>(
    a: Vec<(Vec<u8>, SymNode<L>)>,
    b: Vec<(Vec<u8>, SymNode<L>)>,
    p: Path,
    below: Map<Path, Option<L>>,
    c: SymNode<L>,
    l: L,
)
    requires
        p.len() > 0,
        relisted(a@, b@, p[0], Some(c)),
        p.len() > 1 ==> below == match child_of(a@, p[0]) {
            Some(x) => x.contents(),
            None => Map::empty().insert(Path::empty(), None),
        },
        p.len() > 1 ==> c.contents() == with_leaf(below, p.drop_first(), l),
        p.len() == 1 ==> c == SymNode::Leaf(l),
    ensures
        SymNode::Dir(b).contents() == with_leaf(SymNode::Dir(a).contents(), p, l),
{
    let got = SymNode::Dir(b).contents();
    let all = SymNode::Dir(a).contents();
    let want = with_leaf(all, p, l);
    assert forall|q: Path| #[trigger]
        got.dom().contains(q) == want.dom().contains(q) && (got.dom().contains(q) ==> got[q]
            == want[q]) by {
        lemma_contents_step(a, q);
        lemma_contents_step(b, q);
        lemma_under_step(p, q);
        if q.len() == 0 {
            assert(p.take(0) =~= q);
        } else {
            lemma_under_step(q, p);
            let rest = q.drop_first();
            if q[0] == p[0] {
                if p.len() == 1 {
                    assert(p.drop_first() =~= Path::empty());
                    assert(rest.take(0) =~= Path::empty());
                    if rest.len() == 0 {
                        assert(rest =~= Path::empty());
                        assert(c.find(rest) == Some(c));
                    } else {
                        assert(c.find(rest) is None);
                    }
                } else {
                    let pr = p.drop_first();
                    if child_of(a@, p[0]) is None {
                        if rest.len() == 0 {
                            assert(rest =~= Path::empty());
                        }
                        assert(below.contains_key(rest) <==> rest.len() == 0);
                        assert(pr.take(0) =~= Path::empty());
                    }
                }
            }
        }
    }
    assert(got =~= want);
}

/// Puts `leaf` at the path from segment `k` on, below `node`.
pub fn put<L>(node: SymNode<L>, path: &[&str], k: usize, leaf: L) -> (r: SymNode<L>)
    requires
        node.wf(),
        node is Dir,
        k < path@.len(),
        forall|j: int| !blocks(node.contents(), segments(path@).skip(k as int), j),
    ensures
        r.wf(),
        r is Dir,
        r.contents() == with_leaf(node.contents(), segments(path@).skip(k as int), leaf),
    decreases path@.len() - k,
{
    let ghost p = segments(path@).skip(k as int);
    let ghost before = node;
    let seg: &[u8] = path[k].as_bytes();
    assert(p[0] == seg@);
    assert(p.drop_first() =~= segments(path@).skip(k + 1));
    proof {
        assert(node.find(Path::empty()) == Some(node));
        assert(in_order(node.find(Path::empty())));
    }
    match node {
        SymNode::Dir(mut m) => {
            let ghost a = m;
            let ghost below = match child_of(a@, p[0]) {
                Some(x) => x.contents(),
                None => Map::empty().insert(Path::empty(), None),
            };
            proof {
                lemma_children_wf(a);
            }
            match search(&m, seg) {
                Ok(i) => {
                    let (name, child) = m.remove(i);
                    proof {
                        lemma_child_at(a@, i as int);
                        assert(child.wf());
                    }
                    let sub: SymNode<L> = if k + 1 < path.len() {
                        proof {
                            let head = p.take(1);
                            assert(head =~= seq![p[0]]);
                            lemma_find_child(a, p[0]);
                            assert(!blocks(before.contents(), p, 1));
                            assert(child is Dir);
                            assert forall|j: int| !blocks(child.contents(), p.drop_first(), j) by {
                                if blocks(child.contents(), p.drop_first(), j) {
                                    lemma_contents_step(a, p.take(j + 1));
                                    assert(p.take(j + 1).drop_first() =~= p.drop_first().take(j));
                                    assert(blocks(before.contents(), p, j + 1));
                                }
                            }
                        }
                        put(child, path, k + 1, leaf)
                    } else {
                        SymNode::Leaf(leaf)
                    };
                    proof {
                        if k + 1 >= path@.len() {
                            lemma_leaf_wf(leaf);
                        }
                    }
                    m.insert(i, (name, sub));
                    proof {
                        lemma_replaced(a@, m@, i as int, sub);
                        assert forall|x: int| 0 <= x < m@.len() implies (#[trigger] m@[x]).1.wf() by {
                            if x != i {
                                assert(m@[x] == a@[x]);
                            }
                        }
                        lemma_dir_wf(m);
                        lemma_with_leaf(a, m, p, below, sub, leaf);
                    }
                },
                Err(i) => {
                    let sub: SymNode<L> = if k + 1 < path.len() {
                        let none: Vec<(Vec<u8>, SymNode<L>)> = Vec::new();
                        let empty: SymNode<L> = SymNode::Dir(none);
                        proof {
                            lemma_dir_wf(none);
                            assert forall|q: Path| #[trigger]
                                empty.contents().dom().contains(q) == below.dom().contains(q) by {
                                lemma_contents_step(none, q);
                                if q.len() == 0 {
                                    assert(q =~= Path::empty());
                                }
                            }
                            assert(empty.contents() =~= below);
                            assert forall|j: int| !blocks(empty.contents(), p.drop_first(), j) by {}
                        }
                        put(empty, path, k + 1, leaf)
                    } else {
                        SymNode::Leaf(leaf)
                    };
                    proof {
                        if k + 1 >= path@.len() {
                            lemma_leaf_wf(leaf);
                        }
                    }
                    m.insert(i, (slice_to_vec(seg), sub));
                    proof {
                        lemma_inserted(a@, m@, i as int, seg@, sub);
                        assert forall|x: int| 0 <= x < m@.len() implies (#[trigger] m@[x]).1.wf() by {
                            if x < i {
                                assert(m@[x] == a@[x]);
                            } else if x > i {
                                assert(m@[x] == a@[x - 1]);
                            }
                        }
                        lemma_dir_wf(m);
                        lemma_with_leaf(a, m, p, below, sub, leaf);
                    }
                },
            }
            SymNode::Dir(m)
        },
        SymNode::Leaf(l) => SymNode::Leaf(l),
    }
}

/// The children of an orderly directory are orderly.
pub proof fn lemma_children_wf<L>(m: Vec<(Vec<u8>, SymNode<L>)>)
    requires
        SymNode::Dir(m).wf(),
    ensures
        sorted(names(m@)),
        forall|i: int| 0 <= i < m@.len() ==> (#[trigger] m@[i]).1.wf(),
{
    let n = SymNode::Dir(m);
    assert(in_order(n.find(Path::empty())));
    assert forall|i: int| 0 <= i < m@.len() implies (#[trigger] m@[i]).1.wf() by {
        lemma_child_at(m@, i);
        lemma_find_child(m, m@[i].0@);
        lemma_child_wf(n, m@[i].0@);
    }
}

pub proof fn lemma_leaf_wf<L>(l: L)
    ensures
        SymNode::Leaf(l).wf(),
{
    let n = SymNode::Leaf(l);
    assert forall|p: Path| in_order(#[trigger] n.find(p)) by {}
}

proof fn lemma_without<L>(
    a: Vec<(Vec<u8>, SymNode<L>)>,
    b: Vec<(Vec<u8>, SymNode<L>)>,
    p: Path,
    c: Option<SymNode<L>>,
)
    requires
        p.len() > 0,
        relisted(a@, b@, p[0], c),
        c matches Some(x) ==> child_of(a@, p[0]) is Some && x.contents() == without(
            (child_of(a@, p[0])->0).contents(),
            p.drop_first(),
        ),
        c is None ==> p.len() == 1 || child_of(a@, p[0]) is None,
    ensures
        SymNode::Dir(b).contents() == without(SymNode::Dir(a).contents(), p),
{
    let got = SymNode::Dir(b).contents();
    let want = without(SymNode::Dir(a).contents(), p);
    assert forall|q: Path| #[trigger]
        got.dom().contains(q) == want.dom().contains(q) && (got.dom().contains(q) ==> got[q]
            == want[q]) by {
        lemma_contents_step(a, q);
        lemma_contents_step(b, q);
        lemma_under_step(p, q);
        if q.len() > 0 && q[0] == p[0] && c is None && p.len() == 1 {
            assert(p.drop_first() =~= Path::empty());
            assert(q.drop_first().take(0) =~= Path::empty());
            assert(under(p, q));
        }
    }
    assert(got =~= want);
}

/// Nothing is there to be taken out.
proof fn lemma_nothing_there<L>(n: SymNode<L>, p: Path)
    requires
        !n.contents().contains_key(p),
    ensures
        without(n.contents(), p) == n.contents(),
{
    let m = n.contents();
    assert forall|q: Path| m.contains_key(q) implies !under(p, q) by {
        if under(p, q) {
            lemma_find_prefix(n, q, p.len() as int);
        }
    }
    assert(without(m, p) =~= m);
}

/// What leads to a node leads through nodes.
pub proof fn lemma_find_prefix<L>(n: SymNode<L>, q: Path, k: int)
    requires
        n.find(q) is Some,
        0 <= k <= q.len(),
    ensures
        n.find(q.take(k)) is Some,
        k < q.len() ==> n.find(q.take(k))->0 is Dir,
    decreases k,
{
    if k == 0 {
        assert(q.take(0) =~= Path::empty());
    } else if let SymNode::Dir(m) = n {
        let c = child_of(m@, q[0])->0;
        lemma_find_prefix(c, q.drop_first(), k - 1);
        assert(q.take(k).drop_first() =~= q.drop_first().take(k - 1));
        assert(q.take(k)[0] == q[0]);
    }
}

/// Takes out what is at the path from segment `k` on, below `node`; says whether
/// there was anything.
pub fn take_out<L>(node: SymNode<L>, path: &[&str], k: usize) -> (r: (SymNode<L>, bool))
    requires
        node.wf(),
        k < path@.len(),
    ensures
        r.0.wf(),
        r.0 is Dir == node is Dir,
        r.0.contents() == without(node.contents(), segments(path@).skip(k as int)),
        r.1 == node.contents().contains_key(segments(path@).skip(k as int)),
    decreases path@.len() - k,
{
    let ghost p = segments(path@).skip(k as int);
    let ghost before = node;
    let seg: &[u8] = path[k].as_bytes();
    assert(p[0] == seg@);
    assert(p.drop_first() =~= segments(path@).skip(k + 1));
    match node {
        SymNode::Dir(mut m) => {
            let ghost a = m;
            proof {
                lemma_children_wf(a);
                lemma_contents_step(a, p);
            }
            match search(&m, seg) {
                Ok(i) => {
                    proof {
                        lemma_child_at(a@, i as int);
                    }
                    if k + 1 >= path.len() {
                        m.remove(i);
                        proof {
                            let c = a@[i as int].1;
                            assert(p.drop_first() =~= Path::empty());
                            assert(c.find(Path::empty()) == Some(c));
                            lemma_removed(a@, i as int);
                            assert(m@ == a@.remove(i as int));
                            assert forall|x: int| 0 <= x < m@.len() implies (
                            #[trigger] m@[x]).1.wf() by {
                                if x < i {
                                    assert(m@[x] == a@[x]);
                                } else {
                                    assert(m@[x] == a@[x + 1]);
                                }
                            }
                            lemma_dir_wf(m);
                            lemma_without(a, m, p, None);
                        }
                        (SymNode::Dir(m), true)
                    } else {
                        let (name, child) = m.remove(i);
                        assert(child == a@[i as int].1);
                        let (sub, found) = take_out(child, path, k + 1);
                        m.insert(i, (name, sub));
                        proof {
                            lemma_replaced(a@, m@, i as int, sub);
                            assert forall|x: int| 0 <= x < m@.len() implies (
                            #[trigger] m@[x]).1.wf() by {
                                if x != i {
                                    assert(m@[x] == a@[x]);
                                }
                            }
                            lemma_dir_wf(m);
                            lemma_without(a, m, p, Some(sub));
                        }
                        (SymNode::Dir(m), found)
                    }
                },
                Err(_) => {
                    proof {
                        lemma_nothing_there(before, p);
                    }
                    (SymNode::Dir(m), false)
                },
            }
        },
        SymNode::Leaf(l) => {
            proof {
                assert(before.find(p) is None);
                lemma_nothing_there(before, p);
            }
            (SymNode::Leaf(l), false)
        },
    }
}

} // verus!
