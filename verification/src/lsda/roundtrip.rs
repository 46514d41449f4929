//! What a reader makes of a written tree of datasets.

use crate::lsda::binout::Binout;
use crate::lsda::arena::{dir_meta, frozen, visible, went, Cursor};
use crate::lsda::data::{law_data_reads_back, Data, DataView};
use crate::lsda::diskfile::Diskfile;
use crate::lsda::edit::BinoutEditor;
use crate::lsda::graft::{lemma_children_wf, lemma_find_prefix, under};
use crate::lsda::load::lookup_name;
use crate::lsda::order::{lemma_one_place, names, sorted};
use crate::lsda::paths::{
    dir_text, lemma_joined, lemma_root_text, lemma_went, open_to, plain_name, plain_path, with_dirs,
};
use crate::lsda::reading::{
    declared_leaves, fields_fit, group_read, groups_read, lemma_table_read, lemma_values_stand,
    written_sizes,
};
use crate::lsda::symbol::{elem_size, leaf_read, node_read, ReadView};
use crate::lsda::table::{empty_cursor, family_tables};
use crate::lsda::tree::{
    lemma_child_at, lemma_child_place, lemma_find_child, Path, SymMeta, SymNode,
};
use crate::lsda::write::{
    group_data, groups_below, groups_of, joined, leaves_of, lsda_image, offset_of, path_bytes,
    GroupView,
};
use crate::lsda::LsdaFault;
use crate::text::law_text_keeps_utf8;
use vstd::prelude::*;
use vstd::utf8::{encode_utf8_valid_utf8, valid_utf8};

verus! {

/// What the symbol table says of dataset `j` of group `i`.
pub open spec fn meta_for(g: Seq<GroupView>, i: int, j: int) -> SymMeta {
    let x = g[i].leaves[j];
    SymMeta {
        type_: x.1.type_code(),
        offset: offset_of(g, i, j) as u64,
        length: x.1.count() as u64,
        file_index: 0,
        name_len: x.0.len() as usize,
    }
}

/// Some group declares the dataset `x` with `meta`.
pub open spec fn told(meta: SymMeta, x: (Seq<u8>, DataView), g: Seq<GroupView>) -> bool {
    exists|i: int, j: int|
        0 <= i < g.len() && 0 <= j < g[i].leaves.len() && g[i].leaves[j] == x && meta
            == #[trigger] meta_for(g, i, j)
}

/// `q` lies below `d`.
pub open spec fn below(d: Path, q: Path) -> bool {
    under(d, q) && q.len() > d.len()
}

/// The way from `d` to `q`.
pub open spec fn from_here(d: Path, q: Path) -> Path {
    q.skip(d.len() as int)
}

/// What stands at a place: nothing, a directory, or a dataset and its name.
pub type Place = Option<Option<(Seq<u8>, DataView)>>;

/// `b` is `a` with what `f` says stands below `d`; `any` says whether the way to `d`
/// was made.
pub open spec fn shows(
    a: Map<Path, SymMeta>,
    b: Map<Path, SymMeta>,
    d: Path,
    g: Seq<GroupView>,
    any: bool,
    f: spec_fn(Path) -> Place,
) -> bool {
    &&& forall|q: Path| #[trigger]
        b.contains_key(q) <==> a.contains_key(q) || (any && under(q, d)) || (below(d, q) && f(
            from_here(d, q),
        ) is Some)
    &&& forall|q: Path| a.contains_key(q) ==> #[trigger] b[q] == a[q]
    &&& forall|q: Path| !a.contains_key(q) && any && under(q, d) ==> #[trigger] b[q] == dir_meta()
    &&& forall|q: Path|
        below(d, q) && f(from_here(d, q)) == Some(None::<(Seq<u8>, DataView)>) ==> #[trigger] b[q]
            == dir_meta()
    &&& forall|q: Path|
        below(d, q) && (f(from_here(d, q)) matches Some(Some(_))) ==> told(
            #[trigger] b[q],
            (f(from_here(d, q))->0)->0,
            g,
        )
}

/// Nothing stands below `d`.
pub open spec fn free_below(e: Map<Path, SymMeta>, d: Path) -> bool {
    forall|q: Path| #[trigger] e.contains_key(q) ==> !below(d, q)
}

/// A dataset stands at `r` or below it.
pub open spec fn live(n: SymNode<Data>, r: Path) -> bool {
    exists|s: Path| under(r, s) && (#[trigger] n.find(s)) matches Some(SymNode::Leaf(_))
}

/// What a written tree shows at `r`.
pub open spec fn shown(n: SymNode<Data>, r: Path) -> Place {
    match n.find(r) {
        Some(SymNode::Leaf(d)) => Some(Some((r.last(), d@))),
        Some(SymNode::Dir(_)) => if live(n, r) {
            Some(None)
        } else {
            None
        },
        None => None,
    }
}

/// What a written directory shows at `r`, as far as its datasets and the first `n`
/// of its children go.
pub open spec fn shown_part(m: Vec<(Vec<u8>, SymNode<Data>)>, n: nat, r: Path) -> Place {
    if r.len() > 0 && names(m@).contains(r[0]) {
        let k = names(m@).index_of(r[0]);
        match m@[k].1 {
            SymNode::Leaf(d) => if r.len() == 1 {
                Some(Some((r[0], d@)))
            } else {
                None
            },
            SymNode::Dir(_) => if k < n {
                if r.len() == 1 {
                    if live(m@[k].1, Path::empty()) {
                        Some(None)
                    } else {
                        None
                    }
                } else {
                    shown(m@[k].1, r.drop_first())
                }
            } else {
                None
            },
        }
    } else {
        None
    }
}

/// What the first `j` datasets of a group show.
pub open spec fn shown_leaves(s: Seq<(Seq<u8>, DataView)>, j: nat, r: Path) -> Place {
    if r.len() == 1 && exists|k: int| 0 <= k < j && (#[trigger] s[k]).0 == r[0] {
        let k = choose|k: int| 0 <= k < j && (#[trigger] s[k]).0 == r[0];
        Some(Some(s[k]))
    } else {
        None
    }
}

/// The names of datasets differ.
pub open spec fn leaf_names_differ(s: Seq<(Seq<u8>, DataView)>) -> bool {
    forall|a: int, b: int| 0 <= a < b < s.len() ==> (#[trigger] s[a]).0 != (#[trigger] s[b]).0
}

proof fn lemma_below_push(d: Path, q: Path, n: Seq<u8>)
    ensures
        q == d.push(n) <==> below(d, q) && from_here(d, q) == seq![n],
{
    if q == d.push(n) {
        assert(q.take(d.len() as int) =~= d);
        assert(from_here(d, q) =~= seq![n]);
    }
    if below(d, q) && from_here(d, q) == seq![n] {
        assert(q =~= q.take(d.len() as int) + from_here(d, q));
        assert(q =~= d.push(n));
    }
}

/// The datasets of a group, one after the other.
proof fn lemma_leaves_shown(
    a: Map<Path, SymMeta>,
    c: Cursor,
    d: Path,
    g: Seq<GroupView>,
    i: int,
    j: nat,
)
    requires
        0 <= i < g.len(),
        j <= g[i].leaves.len(),
        leaf_names_differ(g[i].leaves),
        c.cwd == d,
        c.entries == with_dirs(a, d),
        free_below(a, d),
    ensures
        declared_leaves(c, g, i, j).cwd == d,
        shows(
            a,
            declared_leaves(c, g, i, j).entries,
            d,
            g,
            true,
            |r: Path| shown_leaves(g[i].leaves, j, r),
        ),
    decreases j,
{
    let s = g[i].leaves;
    let b = declared_leaves(c, g, i, j).entries;
    let f = |r: Path| shown_leaves(s, j, r);
    if j == 0 {
        assert(shows(a, b, d, g, true, f));
    } else {
        let k = (j - 1) as nat;
        lemma_leaves_shown(a, c, d, g, i, k);
        let e = declared_leaves(c, g, i, k).entries;
        let h = |r: Path| shown_leaves(s, k, r);
        let x = s[k as int];
        let at = d.push(x.0);
        assert(b == e.insert(at, meta_for(g, i, k as int)));
        lemma_below_push(d, at, x.0);
        assert(!a.contains_key(at));
        assert(!under(at, d));
        assert forall|r: Path| #[trigger] f(r) == if r == seq![x.0] {
            Some(Some(x))
        } else {
            h(r)
        } by {
            if r == seq![x.0] {
                assert(s[k as int].0 == r[0]);
                let y = choose|y: int| 0 <= y < j && (#[trigger] s[y]).0 == r[0];
                if y < k {
                    assert(s[y].0 != s[k as int].0);
                }
            } else if r.len() == 1 {
                if r[0] == x.0 {
                    assert(r =~= seq![x.0]);
                }
                if exists|y: int| 0 <= y < k && (#[trigger] s[y]).0 == r[0] {
                    let y = choose|y: int| 0 <= y < k && (#[trigger] s[y]).0 == r[0];
                    let z = choose|z: int| 0 <= z < j && (#[trigger] s[z]).0 == r[0];
                    assert(s[y].0 == r[0] && s[z].0 == r[0]);
                    if y < z {
                        assert(s[y].0 != s[z].0);
                    }
                    if z < y {
                        assert(s[z].0 != s[y].0);
                    }
                } else if exists|y: int| 0 <= y < j && (#[trigger] s[y]).0 == r[0] {
                    let y = choose|y: int| 0 <= y < j && (#[trigger] s[y]).0 == r[0];
                    assert(y == k);
                }
            }
        }
        assert forall|q: Path| #[trigger] b.contains_key(q) <==> a.contains_key(q) || under(q, d)
            || (below(d, q) && f(from_here(d, q)) is Some) by {
            lemma_below_push(d, q, x.0);
            let r = from_here(d, q);
            assert(f(r) == if r == seq![x.0] {
                Some(Some(x))
            } else {
                h(r)
            });
            assert(e.contains_key(q) <==> a.contains_key(q) || under(q, d) || (below(d, q) && h(
                r,
            ) is Some));
        }
        assert forall|q: Path| below(d, q) && (f(from_here(d, q)) matches Some(Some(_))) implies told(
            #[trigger] b[q],
            (f(from_here(d, q))->0)->0,
            g,
        ) by {
            lemma_below_push(d, q, x.0);
            let r = from_here(d, q);
            if q == at {
                assert(g[i].leaves[k as int] == x);
                assert(b[q] == meta_for(g, i, k as int));
                assert(told(b[q], x, g));
            } else {
                assert(f(r) == h(r));
                assert(b[q] == e[q]);
            }
        }
        assert forall|q: Path| a.contains_key(q) implies #[trigger] b[q] == a[q] by {
            assert(e[q] == a[q]);
        }
        assert forall|q: Path| !a.contains_key(q) && under(q, d) implies #[trigger] b[q]
            == dir_meta() by {
            assert(e[q] == dir_meta());
        }
        assert forall|q: Path|
            below(d, q) && f(from_here(d, q)) == Some(None::<(Seq<u8>, DataView)>) implies #[trigger] b[q]
            == dir_meta() by {
            lemma_below_push(d, q, x.0);
            assert(e[q] == dir_meta());
        }
        assert(shows(a, b, d, g, true, f));
    }
}

/// Child `k` is the dataset `x`.
pub open spec fn is_leaf(m: Seq<(Vec<u8>, SymNode<Data>)>, k: int, x: (Seq<u8>, DataView)) -> bool {
    m[k].1 matches SymNode::Leaf(d) && x == (m[k].0@, d@)
}

/// One of the first `n` children is the dataset `x`.
pub open spec fn has_leaf(
    m: Seq<(Vec<u8>, SymNode<Data>)>,
    n: nat,
    x: (Seq<u8>, DataView),
) -> bool {
    exists|k: int| 0 <= k < n && #[trigger] is_leaf(m, k, x)
}

/// The datasets of a directory are its children that are leaves.
proof fn lemma_leaves_of(m: Vec<(Vec<u8>, SymNode<Data>)>, n: nat)
    requires
        sorted(names(m@)),
        n <= m@.len(),
    ensures
        leaf_names_differ(leaves_of(m@, n)),
        forall|k: int|
            0 <= k < n && (m@[k].1 matches SymNode::Leaf(_)) ==> leaves_of(m@, n).contains(
                ((#[trigger] m@[k]).0@, (m@[k].1->Leaf_0)@),
            ),
        forall|j: int|
            0 <= j < leaves_of(m@, n).len() ==> has_leaf(m@, n, #[trigger] leaves_of(m@, n)[j]),
    decreases n,
{
    if n > 0 {
        let i = n - 1;
        lemma_leaves_of(m, i as nat);
        let a = leaves_of(m@, i as nat);
        let b = leaves_of(m@, n);
        if let SymNode::Leaf(d) = m@[i].1 {
            let x = (m@[i].0@, d@);
            assert(b == a.push(x));
            assert forall|k: int| 0 <= k < n && (m@[k].1 matches SymNode::Leaf(_)) implies b.contains(
                ((#[trigger] m@[k]).0@, (m@[k].1->Leaf_0)@),
            ) by {
                let y = (m@[k].0@, (m@[k].1->Leaf_0)@);
                if k < i {
                    assert(a.contains(y));
                    let z = choose|z: int| 0 <= z < a.len() && a[z] == y;
                    assert(b[z] == y);
                } else {
                    assert(b[a.len() as int] == y);
                }
            }
            assert forall|j: int| 0 <= j < b.len() implies has_leaf(m@, n, #[trigger] b[j]) by {
                if j < a.len() {
                    assert(b[j] == a[j]);
                    let k = choose|k: int| 0 <= k < i && #[trigger] is_leaf(m@, k, a[j]);
                    assert(is_leaf(m@, k, b[j]));
                } else {
                    assert(is_leaf(m@, i, b[j]));
                }
            }
            assert forall|u: int, v: int| 0 <= u < v < b.len() implies (#[trigger] b[u]).0 != (
            #[trigger] b[v]).0 by {
                assert(b[u] == a[u]);
                if v < a.len() {
                    assert(b[v] == a[v]);
                } else {
                    let k = choose|k: int| 0 <= k < i && #[trigger] is_leaf(m@, k, a[u]);
                    if b[u].0 == b[v].0 {
                        assert(names(m@)[k] == names(m@)[i]);
                        lemma_one_place(names(m@), k, i);
                    }
                }
            }
        } else {
            assert(b == a);
            assert forall|j: int| 0 <= j < b.len() implies has_leaf(m@, n, #[trigger] b[j]) by {
                let k = choose|k: int| 0 <= k < i && #[trigger] is_leaf(m@, k, a[j]);
                assert(is_leaf(m@, k, b[j]));
            }
        }
    }
}

/// The datasets that a group shows are those that the directory shows.
proof fn lemma_own_shown(m: Vec<(Vec<u8>, SymNode<Data>)>, r: Path)
    requires
        sorted(names(m@)),
    ensures
        shown_leaves(leaves_of(m@, m@.len()), leaves_of(m@, m@.len()).len(), r) == shown_part(
            m,
            0,
            r,
        ),
{
    let s = leaves_of(m@, m@.len());
    let ns = names(m@);
    lemma_leaves_of(m, m@.len());
    if r.len() == 1 {
        if exists|j: int| 0 <= j < s.len() && (#[trigger] s[j]).0 == r[0] {
            let j = choose|j: int| 0 <= j < s.len() && (#[trigger] s[j]).0 == r[0];
            let k = choose|k: int| 0 <= k < m@.len() && #[trigger] is_leaf(m@, k, s[j]);
            assert(ns[k] == r[0]);
            assert(ns.contains(r[0]));
            lemma_one_place(ns, k, ns.index_of(r[0]));
        } else if ns.contains(r[0]) {
            let k = ns.index_of(r[0]);
            assert(ns[k] == r[0]);
            if let SymNode::Leaf(d) = m@[k].1 {
                let x = (m@[k].0@, (m@[k].1->Leaf_0)@);
                assert(s.contains(x));
                let j = choose|j: int| 0 <= j < s.len() && s[j] == x;
                assert(s[j].0 == r[0]);
            }
        }
    }
}

/// The directories of a tree have names that are texts, and that stand for themselves
/// in a path: not empty, not `..`, and without slashes.
pub open spec fn named_dirs(n: SymNode<Data>) -> bool {
    forall|p: Path, k: int|
        (n.find(p) matches Some(SymNode::Dir(_))) && 0 <= k < p.len() ==> plain_name(
            #[trigger] p[k],
        ) && valid_utf8(p[k])
}

proof fn lemma_named_child(m: Vec<(Vec<u8>, SymNode<Data>)>, i: int)
    requires
        SymNode::Dir(m).wf(),
        named_dirs(SymNode::Dir(m)),
        0 <= i < m@.len(),
        m@[i].1 is Dir,
    ensures
        named_dirs(m@[i].1),
        plain_name(m@[i].0@),
        lookup_name(m@[i].0@) == m@[i].0@,
{
    law_text_keeps_utf8(m@[i].0@);
    let n = SymNode::Dir(m);
    let name = m@[i].0@;
    lemma_children_wf(m);
    lemma_child_at(m@, i);
    lemma_find_child(m, name);
    let one = seq![name];
    assert(n.find(one) matches Some(SymNode::Dir(_)));
    assert(plain_name(one[0]));
    assert forall|p: Path, k: int|
        (m@[i].1.find(p) matches Some(SymNode::Dir(_))) && 0 <= k < p.len() implies plain_name(
        #[trigger] p[k],
    ) && valid_utf8(p[k]) by {
        let q = one + p;
        assert(q.drop_first() =~= p);
        assert(n.find(q) == m@[i].1.find(p));
        assert(q[k + 1] == p[k]);
    }
}

/// Child `k` is a directory with datasets.
pub open spec fn live_dir(m: Seq<(Vec<u8>, SymNode<Data>)>, k: int) -> bool {
    m[k].1 is Dir && live(m[k].1, Path::empty())
}

/// A tree without datasets has no groups, and one with datasets has.
proof fn lemma_groups_live(n: SymNode<Data>, path: Seq<char>)
    requires
        n.wf(),
        n is Dir,
    ensures
        groups_of(n, path).len() > 0 <==> live(n, Path::empty()),
    decreases n, 1nat, 0nat,
{
    if let SymNode::Dir(m) = n {
        lemma_children_wf(m);
        lemma_leaves_of(m, m@.len());
        lemma_below_live(n, m, path, m@.len());
        let s = leaves_of(m@, m@.len());
        if s.len() > 0 {
            assert(has_leaf(m@, m@.len(), s[0]));
            let k = choose|k: int| 0 <= k < m@.len() && #[trigger] is_leaf(m@, k, s[0]);
            lemma_child_at(m@, k);
            lemma_find_child(m, m@[k].0@);
            let p = seq![m@[k].0@];
            assert(p.take(0) =~= Path::empty());
            assert(n.find(p) matches Some(SymNode::Leaf(_)));
        }
        if live(n, Path::empty()) {
            let p = choose|p: Path|
                under(Path::empty(), p) && (#[trigger] n.find(p)) matches Some(SymNode::Leaf(_));
            assert(p.len() > 0);
            let k = lemma_child_place(m@, p[0]);
            let c = m@[k].1;
            if let SymNode::Leaf(x) = c {
                assert(s.contains((m@[k].0@, (m@[k].1->Leaf_0)@)));
            } else {
                let rest = p.drop_first();
                assert(c.find(rest) == n.find(p));
                assert(rest.take(0) =~= Path::empty());
                assert(live(c, Path::empty()));
                assert(live_dir(m@, k));
            }
        }
    }
}

/// The children that are directories with datasets have groups.
proof fn lemma_below_live(
    node: SymNode<Data>,
    m: Vec<(Vec<u8>, SymNode<Data>)>,
    path: Seq<char>,
    n: nat,
)
    requires
        node == SymNode::Dir(m),
        node.wf(),
        n <= m@.len(),
    ensures
        groups_below(m, path, n).len() > 0 <==> exists|k: int|
            0 <= k < n && #[trigger] live_dir(m@, k),
        groups_below(m, path, n).len() > 0 ==> live(node, Path::empty()),
    decreases node, 0nat, n,
{
    if n > 0 {
        let i = n - 1;
        lemma_below_live(node, m, path, i as nat);
        lemma_children_wf(m);
        let c = m@[i].1;
        assert(decreases_to!(node => m@[i].1));
        assert(live_dir(m@, i) == (c is Dir && live(c, Path::empty())));
        let x = groups_of(c, joined(path, m@[i].0@));
        assert(groups_below(m, path, n) == groups_below(m, path, i as nat) + x);
        assert(c is Leaf ==> x.len() == 0);
        if c is Dir {
            lemma_groups_live(c, joined(path, m@[i].0@));
            if live(c, Path::empty()) {
                let s = choose|s: Path|
                    under(Path::empty(), s) && (#[trigger] c.find(s)) matches Some(
                        SymNode::Leaf(_),
                    );
                let p = seq![m@[i].0@] + s;
                lemma_child_at(m@, i);
                assert(p.drop_first() =~= s);
                assert(node.find(p) == c.find(s));
                assert(p.take(0) =~= Path::empty());
                assert(live(node, Path::empty()));
            }
        }
    }
}

/// Datasets below a child are below the directory.
proof fn lemma_live_step(m: Vec<(Vec<u8>, SymNode<Data>)>, k: int, rest: Path)
    requires
        sorted(names(m@)),
        0 <= k < m@.len(),
    ensures
        live(SymNode::Dir(m), seq![m@[k].0@] + rest) <==> live(m@[k].1, rest),
{
    let n = SymNode::Dir(m);
    let c = m@[k].1;
    let a = m@[k].0@;
    let r = seq![a] + rest;
    lemma_child_at(m@, k);
    if live(n, r) {
        let s = choose|s: Path| under(r, s) && (#[trigger] n.find(s)) matches Some(SymNode::Leaf(_));
        assert(s.take(r.len() as int)[0] == s[0]);
        assert(s[0] == a);
        let t = s.drop_first();
        assert(n.find(s) == c.find(t));
        assert(t.take(rest.len() as int) =~= s.take(r.len() as int).drop_first());
        assert(r.drop_first() =~= rest);
        assert(under(rest, t));
    }
    if live(c, rest) {
        let t = choose|t: Path|
            under(rest, t) && (#[trigger] c.find(t)) matches Some(SymNode::Leaf(_));
        let s = seq![a] + t;
        assert(s.drop_first() =~= t);
        assert(n.find(s) == c.find(t));
        assert(s.take(r.len() as int) =~= seq![a] + t.take(rest.len() as int));
        assert(under(r, s));
    }
}

/// All children together show what the directory does.
proof fn lemma_all_shown(m: Vec<(Vec<u8>, SymNode<Data>)>, r: Path)
    requires
        SymNode::Dir(m).wf(),
        r.len() > 0,
    ensures
        shown_part(m, m@.len(), r) == shown(SymNode::Dir(m), r),
{
    let n = SymNode::Dir(m);
    lemma_children_wf(m);
    if names(m@).contains(r[0]) {
        let k = names(m@).index_of(r[0]);
        let rest = r.drop_first();
        assert(names(m@)[k] == r[0]);
        lemma_child_at(m@, k);
        lemma_live_step(m, k, rest);
        assert(r =~= seq![r[0]] + rest);
        let c = m@[k].1;
        assert(n.find(r) == c.find(rest));
        if r.len() == 1 {
            assert(rest =~= Path::empty());
            assert(c.find(rest) == Some(c));
        } else {
            assert(rest.last() == r.last());
        }
    }
}

proof fn lemma_groups_read_join(c: Cursor, g: Seq<GroupView>, a: int, b: int, e: int)
    requires
        a <= b <= e,
    ensures
        groups_read(groups_read(c, g, a, b), g, b, e) == groups_read(c, g, a, e),
    decreases e - b,
{
    if b < e {
        lemma_groups_read_join(c, g, a, b, e - 1);
    }
}

/// Where the child `a` of the directory `d` is, and what lies below it.
proof fn lemma_child_way(d: Path, a: Seq<u8>, q: Path)
    ensures
        under(q, d.push(a)) <==> under(q, d) || q == d.push(a),
        q == d.push(a) <==> below(d, q) && from_here(d, q) == seq![a],
        below(d.push(a), q) <==> below(d, q) && from_here(d, q).len() > 1 && from_here(d, q)[0] == a,
        below(d.push(a), q) ==> from_here(d.push(a), q) == from_here(d, q).drop_first(),
        below(d, q) ==> from_here(d, q).len() > 0,
{
    let e = d.push(a);
    lemma_below_push(d, q, a);
    if under(q, e) {
        if q.len() <= d.len() {
            assert(e.take(q.len() as int) =~= d.take(q.len() as int));
        } else {
            assert(e.take(e.len() as int) =~= e);
        }
    }
    if under(q, d) {
        assert(e.take(q.len() as int) =~= d.take(q.len() as int));
    }
    if q == e {
        assert(e.take(e.len() as int) =~= e);
    }
    if below(e, q) {
        assert(q.take(d.len() as int) =~= q.take(e.len() as int).take(d.len() as int));
        assert(e.take(d.len() as int) =~= d);
        assert(q.take(e.len() as int)[d.len() as int] == a);
        assert(from_here(e, q) =~= from_here(d, q).drop_first());
    }
    if below(d, q) && from_here(d, q).len() > 1 && from_here(d, q)[0] == a {
        assert(q[d.len() as int] == a);
        assert(q.take(e.len() as int) =~= q.take(d.len() as int).push(a));
    }
}

/// What a child shows adds to what the directory shows.
proof fn lemma_child_shown(
    a: Map<Path, SymMeta>,
    b: Map<Path, SymMeta>,
    e: Map<Path, SymMeta>,
    m: Vec<(Vec<u8>, SymNode<Data>)>,
    d: Path,
    g: Seq<GroupView>,
    any: bool,
    i: nat,
)
    requires
        sorted(names(m@)),
        i < m@.len(),
        m@[i as int].1 is Dir,
        free_below(a, d),
        shows(a, b, d, g, any, |r: Path| shown_part(m, i, r)),
        shows(
            b,
            e,
            d.push(m@[i as int].0@),
            g,
            live(m@[i as int].1, Path::empty()),
            |r: Path| shown(m@[i as int].1, r),
        ),
    ensures
        shows(
            a,
            e,
            d,
            g,
            any || live(m@[i as int].1, Path::empty()),
            |r: Path| shown_part(m, i + 1, r),
        ),
{
    let x = m@[i as int].0@;
    let c = m@[i as int].1;
    let dd = d.push(x);
    let more = live(c, Path::empty());
    let fi = |r: Path| shown_part(m, i, r);
    let fc = |r: Path| shown(c, r);
    let fn1 = |r: Path| shown_part(m, i + 1, r);
    let ns = names(m@);
    assert(ns[i as int] == x);
    assert(ns.contains(x));
    lemma_one_place(ns, i as int, ns.index_of(x));
    assert forall|r: Path| r.len() > 0 implies #[trigger] fn1(r) == if r[0] == x {
        if r.len() == 1 {
            if more {
                Some(None)
            } else {
                None
            }
        } else {
            fc(r.drop_first())
        }
    } else {
        fi(r)
    } by {
        if r[0] != x && ns.contains(r[0]) {
            let k = ns.index_of(r[0]);
            assert(ns[k] == r[0]);
            assert(k != i);
        }
    }
    assert forall|r: Path| r.len() > 0 && r[0] == x implies #[trigger] fi(r) is None by {}
    assert forall|q: Path| #[trigger]
        e.contains_key(q) <==> a.contains_key(q) || ((any || more) && under(q, d)) || (below(d, q)
            && fn1(from_here(d, q)) is Some) by {
        lemma_child_way(d, x, q);
        let r = from_here(d, q);
        assert(b.contains_key(q) <==> a.contains_key(q) || (any && under(q, d)) || (below(d, q)
            && fi(r) is Some));
        if below(d, q) {
            assert(fn1(r) == shown_part(m, i + 1, r));
            if r[0] == x {
                assert(fi(r) is None);
                if r.len() == 1 {
                    assert(r =~= seq![x]);
                }
            }
        }
    }
    assert forall|q: Path| a.contains_key(q) implies #[trigger] e[q] == a[q] by {
        assert(b.contains_key(q));
        assert(b[q] == a[q]);
    }
    assert forall|q: Path| !a.contains_key(q) && (any || more) && under(q, d) implies #[trigger] e[q]
        == dir_meta() by {
        lemma_child_way(d, x, q);
        assert(b.contains_key(q) <==> a.contains_key(q) || (any && under(q, d)) || (below(d, q)
            && fi(from_here(d, q)) is Some));
        if b.contains_key(q) {
            assert(b[q] == dir_meta());
        }
    }
    assert forall|q: Path|
        below(d, q) && fn1(from_here(d, q)) == Some(None::<(Seq<u8>, DataView)>) implies #[trigger] e[q]
        == dir_meta() by {
        lemma_child_way(d, x, q);
        let r = from_here(d, q);
        assert(b.contains_key(q) <==> a.contains_key(q) || (any && under(q, d)) || (below(d, q)
            && fi(r) is Some));
        assert(!a.contains_key(q));
        assert(fn1(r) == shown_part(m, i + 1, r));
        if r[0] == x {
            assert(fi(r) is None);
            if r.len() == 1 {
                assert(r =~= seq![x]);
                assert(q == dd);
                assert(under(q, dd));
            } else {
                assert(below(dd, q));
                assert(fc(from_here(dd, q)) == Some(None::<(Seq<u8>, DataView)>));
            }
        } else {
            assert(fi(r) == Some(None::<(Seq<u8>, DataView)>));
            assert(b[q] == dir_meta());
        }
    }
    assert forall|q: Path| below(d, q) && (fn1(from_here(d, q)) matches Some(Some(_))) implies told(
        #[trigger] e[q],
        (fn1(from_here(d, q))->0)->0,
        g,
    ) by {
        lemma_child_way(d, x, q);
        let r = from_here(d, q);
        assert(b.contains_key(q) <==> a.contains_key(q) || (any && under(q, d)) || (below(d, q)
            && fi(r) is Some));
        assert(fn1(r) == shown_part(m, i + 1, r));
        if r[0] == x {
            assert(fi(r) is None);
            assert(r.len() > 1);
            assert(below(dd, q));
            assert(fc(from_here(dd, q)) == fn1(r));
        } else {
            assert(fi(r) == fn1(r));
            assert(told(b[q], (fi(r)->0)->0, g));
            assert(e[q] == b[q]);
        }
    }
    assert(shows(a, e, d, g, any || more, fn1));
}

/// The number of groups of a directory itself.
pub open spec fn own_groups(m: Vec<(Vec<u8>, SymNode<Data>)>) -> nat {
    if leaves_of(m@, m@.len()).len() > 0 {
        1
    } else {
        0
    }
}

/// The groups of a directory and of its first `n` children, read.
#[verifier::rlimit(50)]
proof fn lemma_part_shown(
    node: SymNode<Data>,
    m: Vec<(Vec<u8>, SymNode<Data>)>,
    d: Path,
    path: Seq<char>,
    c: Cursor,
    g: Seq<GroupView>,
    lo: int,
    n: nat,
)
    requires
        node == SymNode::Dir(m),
        node.wf(),
        named_dirs(node),
        plain_path(d),
        path_bytes(path) == dir_text(d),
        n <= m@.len(),
        0 <= lo,
        lo + groups_of(node, path).len() <= g.len(),
        g.subrange(lo, lo + groups_of(node, path).len()) == groups_of(node, path),
        open_to(c.entries, d),
        free_below(c.entries, d),
    ensures
        ({
            let k = own_groups(m) + groups_below(m, path, n).len();
            &&& k <= groups_of(node, path).len()
            &&& shows(
                c.entries,
                groups_read(c, g, lo, lo + k).entries,
                d,
                g,
                k > 0,
                |r: Path| shown_part(m, n, r),
            )
        }),
    decreases node, 0nat, n,
{
    lemma_children_wf(m);
    let all = groups_of(node, path);
    let leaves = leaves_of(m@, m@.len());
    lemma_below_prefix(m, path, n, m@.len());
    assert(all.len() == own_groups(m) + groups_below(m, path, m@.len()).len());
    if n == 0 {
        assert(groups_below(m, path, 0).len() == 0);
        let f = |r: Path| shown_part(m, 0, r);
        let h = |r: Path| shown_leaves(leaves, leaves.len(), r);
        assert forall|r: Path| #[trigger] f(r) == h(r) by {
            lemma_own_shown(m, r);
        }
        assert(f =~= h);
        if leaves.len() > 0 {
            assert(all[0] == (GroupView { path, leaves }));
            assert(g.subrange(lo, lo + all.len())[0] == g[lo]);
            assert(g[lo] == all[0]);
            lemma_leaves_of(m, m@.len());
            lemma_went(c, d);
            let w = went(c, path_bytes(path));
            assert(groups_read(c, g, lo, lo) == c);
            assert(groups_read(c, g, lo, lo + 1) == group_read(c, g, lo));
            lemma_leaves_shown(c.entries, w, d, g, lo, leaves.len());
        } else {
            assert(groups_read(c, g, lo, lo) == c);
            assert forall|r: Path| #[trigger] f(r) is None by {
                assert(h(r) is None);
            }
            assert(shows(c.entries, c.entries, d, g, false, f));
        }
    } else {
        let i = (n - 1) as nat;
        lemma_part_shown(node, m, d, path, c, g, lo, i);
        let ki = own_groups(m) + groups_below(m, path, i).len();
        let kn = own_groups(m) + groups_below(m, path, n).len();
        let a = m@[i as int].0@;
        let child = m@[i as int].1;
        let sub = joined(path, a);
        let x = groups_of(child, sub);
        assert(groups_below(m, path, n) == groups_below(m, path, i) + x);
        assert(kn == ki + x.len());
        let ci = groups_read(c, g, lo, lo + ki);
        let fi = |r: Path| shown_part(m, i, r);
        let fn1 = |r: Path| shown_part(m, n, r);
        let ns = names(m@);
        assert(ns[i as int] == a);
        assert(ns.contains(a));
        lemma_one_place(ns, i as int, ns.index_of(a));
        if child is Leaf {
            assert(x.len() == 0);
            assert forall|r: Path| #[trigger] fn1(r) == fi(r) by {
                if r.len() > 0 && ns.contains(r[0]) {
                    let k = ns.index_of(r[0]);
                    assert(ns[k] == r[0]);
                }
            }
            assert(fn1 =~= fi);
        } else {
            lemma_named_child(m, i as int);
            lemma_joined(path, d, a);
            let dd = d.push(a);
            assert(plain_path(dd)) by {
                assert forall|k: int| 0 <= k < dd.len() implies plain_name(#[trigger] dd[k]) by {
                    if k < d.len() {
                        assert(dd[k] == d[k]);
                    }
                }
            }
            lemma_child_open(c.entries, ci.entries, m, d, g, ki > 0, i);
            // where the groups of the child are
            lemma_groups_place(m, path, n, all, own_groups(m));
            assert(all.subrange(ki as int, kn as int) == x);
            assert(g.subrange(lo + ki, lo + ki + x.len()) =~= g.subrange(
                lo,
                lo + all.len(),
            ).subrange(ki as int, kn as int));
            assert(decreases_to!(node => m@[i as int].1));
            lemma_tree_shown(child, dd, sub, ci, g, lo + ki);
            lemma_groups_live(child, sub);
            lemma_groups_read_join(c, g, lo, lo + ki, lo + kn);
            lemma_child_shown(
                c.entries,
                ci.entries,
                groups_read(c, g, lo, lo + kn).entries,
                m,
                d,
                g,
                ki > 0,
                i,
            );
        }
    }
}

/// The way to a child is open, and nothing stands below it yet.
proof fn lemma_child_open(
    a: Map<Path, SymMeta>,
    b: Map<Path, SymMeta>,
    m: Vec<(Vec<u8>, SymNode<Data>)>,
    d: Path,
    g: Seq<GroupView>,
    any: bool,
    i: nat,
)
    requires
        sorted(names(m@)),
        i < m@.len(),
        m@[i as int].1 is Dir,
        open_to(a, d),
        free_below(a, d),
        shows(a, b, d, g, any, |r: Path| shown_part(m, i, r)),
    ensures
        open_to(b, d.push(m@[i as int].0@)),
        free_below(b, d.push(m@[i as int].0@)),
{
    let x = m@[i as int].0@;
    let dd = d.push(x);
    let fi = |r: Path| shown_part(m, i, r);
    let ns = names(m@);
    assert(ns[i as int] == x);
    assert(ns.contains(x));
    lemma_one_place(ns, i as int, ns.index_of(x));
    assert forall|r: Path| r.len() > 0 && r[0] == x implies #[trigger] fi(r) is None by {}
    let root = Path::empty();
    assert(a.contains_key(root));
    assert(b.contains_key(root));
    assert forall|k: int| 0 <= k <= dd.len() && b.contains_key(#[trigger] dd.take(k)) implies b[dd.take(
        k,
    )].type_ == 0 by {
        let q = dd.take(k);
        lemma_child_way(d, x, q);
        if k <= d.len() {
            assert(q =~= d.take(k));
            assert(d.take(k).take(k) =~= d.take(k));
            assert(under(q, d));
            if a.contains_key(q) {
                assert(a[d.take(k)].type_ == 0);
                assert(b[q] == a[q]);
            } else {
                assert(!below(d, q));
                assert(b[q] == dir_meta());
            }
        } else {
            assert(q =~= dd);
            let r = from_here(d, q);
            assert(fi(r) is None);
            assert(!a.contains_key(q));
            assert(!under(q, d));
        }
    }
    assert forall|q: Path| #[trigger] b.contains_key(q) implies !below(dd, q) by {
        lemma_child_way(d, x, q);
        if below(dd, q) {
            let r = from_here(d, q);
            assert(fi(r) is None);
            assert(!a.contains_key(q));
            assert(!under(q, d));
        }
    }
}

/// The groups of the first children come first.
proof fn lemma_below_prefix(m: Vec<(Vec<u8>, SymNode<Data>)>, path: Seq<char>, n: nat, e: nat)
    requires
        n <= e <= m@.len(),
    ensures
        groups_below(m, path, n).len() <= groups_below(m, path, e).len(),
        groups_below(m, path, e).take(groups_below(m, path, n).len() as int) == groups_below(
            m,
            path,
            n,
        ),
    decreases e,
{
    let x = groups_below(m, path, n);
    if n == e {
        assert(x.take(x.len() as int) =~= x);
    } else {
        let k = (e - 1) as nat;
        lemma_below_prefix(m, path, n, k);
        let y = groups_below(m, path, k);
        let z = groups_below(m, path, e);
        assert(z.take(x.len() as int) =~= y.take(x.len() as int));
    }
}

/// Where the groups of child `n - 1` are among those of the directory.
proof fn lemma_groups_place(
    m: Vec<(Vec<u8>, SymNode<Data>)>,
    path: Seq<char>,
    n: nat,
    all: Seq<GroupView>,
    own: nat,
)
    requires
        0 < n <= m@.len(),
        all == groups_of(SymNode::Dir(m), path),
        own == own_groups(m),
    ensures
        ({
            let i = (n - 1) as nat;
            let ki = own + groups_below(m, path, i).len();
            let kn = own + groups_below(m, path, n).len();
            &&& ki <= kn <= all.len()
            &&& all.subrange(ki as int, kn as int) == groups_of(
                m@[i as int].1,
                joined(path, m@[i as int].0@),
            )
        }),
{
    let i = (n - 1) as nat;
    let p = groups_below(m, path, i);
    let q = groups_below(m, path, n);
    let e = groups_below(m, path, m@.len());
    let x = groups_of(m@[i as int].1, joined(path, m@[i as int].0@));
    lemma_below_prefix(m, path, n, m@.len());
    assert(q == p + x);
    assert(all.skip(own as int) =~= e);
    assert(all.subrange((own + p.len()) as int, (own + q.len()) as int) =~= e.take(
        q.len() as int,
    ).skip(p.len() as int));
    assert(q.skip(p.len() as int) =~= x);
}

/// The groups of a tree, read, show the tree.
proof fn lemma_tree_shown(
    node: SymNode<Data>,
    d: Path,
    path: Seq<char>,
    c: Cursor,
    g: Seq<GroupView>,
    lo: int,
)
    requires
        node is Dir,
        node.wf(),
        named_dirs(node),
        plain_path(d),
        path_bytes(path) == dir_text(d),
        0 <= lo,
        lo + groups_of(node, path).len() <= g.len(),
        g.subrange(lo, lo + groups_of(node, path).len()) == groups_of(node, path),
        open_to(c.entries, d),
        free_below(c.entries, d),
    ensures
        shows(
            c.entries,
            groups_read(c, g, lo, lo + groups_of(node, path).len()).entries,
            d,
            g,
            live(node, Path::empty()),
            |r: Path| shown(node, r),
        ),
    decreases node, 1nat, 0nat,
{
    if let SymNode::Dir(m) = node {
        lemma_part_shown(node, m, d, path, c, g, lo, m@.len());
        lemma_groups_live(node, path);
        let k = groups_of(node, path).len();
        assert(k == own_groups(m) + groups_below(m, path, m@.len()).len());
        let a = c.entries;
        let b = groups_read(c, g, lo, lo + k).entries;
        let f = |r: Path| shown_part(m, m@.len(), r);
        let h = |r: Path| shown(node, r);
        assert forall|q: Path| below(d, q) implies #[trigger] f(from_here(d, q)) == h(
            from_here(d, q),
        ) by {
            lemma_all_shown(m, from_here(d, q));
        }
        assert(shows(a, b, d, g, k > 0, f));
        assert(shows(a, b, d, g, k > 0, h));
    }
}

/// `f` is the written file of `e`.
pub open spec fn is_written(f: Diskfile, e: BinoutEditor) -> bool {
    &&& f.wf()
    &&& f.map@ == e.image()
    &&& f.length_size == f.map@[1]
    &&& f.offset_size == f.map@[2]
    &&& f.command_size == f.map@[3]
    &&& f.type_size == f.map@[4]
    &&& f.is_little_endian == (f.map@[5] == 1)
}

/// A dataset is at `p`, or somewhere below it.
pub open spec fn leads_to_data(m: Map<Path, Option<Data>>, p: Path) -> bool {
    exists|q: Path| under(p, q) && #[trigger] m.contains_key(q) && m[q] is Some
}

/// The values of a declared dataset are read.
proof fn lemma_told_reads(e: BinoutEditor, f: Diskfile, meta: SymMeta, x: (Seq<u8>, DataView))
    requires
        is_written(f, e),
        told(meta, x, e.groups()),
    ensures
        meta.type_ == x.1.type_code(),
        leaf_read(meta, seq![f]) == Ok::<ReadView, LsdaFault>(x.1.as_read()),
{
    let g = e.groups();
    let (i, j) = choose|i: int, j: int|
        0 <= i < g.len() && 0 <= j < g[i].leaves.len() && g[i].leaves[j] == x && meta
            == #[trigger] meta_for(g, i, j);
    lemma_values_stand(g, i, j);
    lemma_header_bytes(g);
    law_data_reads_back(x.1);
    let b = f.map@;
    let len = f.map.len();
    let at = offset_of(g, i, j);
    let n = x.1.count();
    let size = elem_size(x.1.type_code());
    assert(f.comp2 == 11);
    assert(n <= n * size) by (nonlinear_arith)
        requires
            size >= 1,
    ;
    assert(b.len() == len);
    assert(n <= usize::MAX);
    assert(meta.length == n);
    assert(meta.offset == at);
    assert(meta.name_len == x.0.len());
    let start = at + 11 + x.0.len();
    if n == 0 {
        assert(0 * size == 0);
        assert(x.1.bytes() =~= Seq::<u8>::empty());
    } else {
        assert(b.subrange(start as int, (start + n * size) as int) == x.1.bytes());
    }
    assert(seq![f][0] == f);
}

/// The header of a written file.
pub proof fn lemma_header_bytes(g: Seq<GroupView>)
    ensures
        lsda_image(g).len() >= 25,
        lsda_image(g)[1] == 8,
        lsda_image(g)[2] == 8,
        lsda_image(g)[3] == 1,
        lsda_image(g)[4] == 1,
        lsda_image(g)[5] == 1,
{
    let h = seq![8u8, 8, 8, 1, 1, 1, 0, 0];
    let p = crate::lsda::write::preamble(25 + group_data(g).len());
    assert(p.len() == 25);
    assert(forall|k: int| 0 <= k < 8 ==> p[k] == h[k]);
    assert(forall|k: int| 0 <= k < 25 ==> lsda_image(g)[k] == p[k]);
}

/// What was written is read back: every dataset with its values, every directory
/// that leads to a dataset, and nothing else. The names of directories must be texts
/// that stand for themselves in a path.
pub proof fn law_written_tree_reads_back(e: BinoutEditor, f: Diskfile)
    requires
        e.wf(),
        named_dirs(e.root),
        is_written(f, e),
    ensures
        family_tables(seq![f], 1) is Ok,
        ({
            let t = frozen((family_tables(seq![f], 1)->Ok_0).entries);
            &&& forall|p: Path| #[trigger]
                t.contains_key(p) <==> p == Path::empty() || (e@.contains_key(p) && leads_to_data(
                    e@,
                    p,
                ))
            &&& forall|p: Path| #[trigger]
                t.contains_key(p) && e@[p] is None ==> t[p] is None
            &&& forall|p: Path| #[trigger]
                t.contains_key(p) && e@[p] is Some ==> t[p] is Some && leaf_read(
                    t[p]->0,
                    seq![f],
                ) == Ok::<ReadView, LsdaFault>((e@[p]->0)@.as_read())
        }),
{
    let g = e.groups();
    let b = e.image();
    let root = e.root;
    let none = Path::empty();
    lemma_root_text();
    lemma_header_bytes(g);
    assert(none + none =~= none);
    assert(plain_path(none));
    assert forall|i: int| 0 <= i < g.len() implies lookup_name(
        path_bytes((#[trigger] g[i]).path),
    ) == path_bytes(g[i].path) by {
        encode_utf8_valid_utf8(g[i].path);
        law_text_keeps_utf8(path_bytes(g[i].path));
    }
    assert(b.len() == f.map.len());
    assert(fields_fit(g)) by {
        assert forall|i: int, j: int|
            0 <= i < g.len() && 0 <= j < g[i].leaves.len() implies #[trigger] offset_of(g, i, j)
            <= u64::MAX && g[i].leaves[j].1.count() <= u64::MAX by {
            lemma_values_stand(g, i, j);
            let d = g[i].leaves[j].1;
            law_data_reads_back(d);
            assert(d.count() <= d.count() * elem_size(d.type_code())) by (nonlinear_arith)
                requires
                    elem_size(d.type_code()) >= 1,
            ;
        }
    }
    let c = empty_cursor();
    lemma_table_read(g, c);
    let all = groups_read(c, g, 0, g.len() as int);
    assert(f.sizes() == written_sizes());
    assert(seq![f][0] == f);
    reveal_with_fuel(family_tables, 2);
    assert(family_tables(seq![f], 1) == Ok::<crate::lsda::arena::Cursor, LsdaFault>(all));
    assert(g.subrange(0, g.len() as int) =~= g);
    assert forall|q: Path| #[trigger] c.entries.contains_key(q) implies !below(none, q) by {}
    assert(open_to(c.entries, none)) by {
        assert(none.take(0) =~= none);
    }
    lemma_tree_shown(root, none, "/"@, c, g, 0);
    let m = all.entries;
    let h = |r: Path| shown(root, r);
    assert(shows(c.entries, m, none, g, live(root, none), h));
    assert forall|q: Path| #[trigger] from_here(none, q) == q by {
        assert(q.skip(0) =~= q);
    }
    assert forall|q: Path| #[trigger] below(none, q) <==> q != none by {
        assert(q.take(0) =~= none);
        if q.len() == 0 {
            assert(q =~= none);
        }
    }
    assert forall|q: Path| under(q, none) implies q == none by {
        assert(q =~= none);
    }
    // what stands in the entries
    assert forall|q: Path| q != none implies (#[trigger] m.contains_key(q) <==> shown(root, q)
        is Some) by {
        assert(below(none, q));
        assert(h(from_here(none, q)) == shown(root, q));
        assert(!c.entries.contains_key(q));
    }
    assert(m.contains_key(none));
    assert(m[none] == c.entries[none]);
    let t = frozen(m);
    assert forall|p: Path| e@.contains_key(p) && e@[p] is Some implies #[trigger] leads_to_data(
        e@,
        p,
    ) by {
        assert(p.take(p.len() as int) =~= p);
    }
    assert forall|p: Path| p != none implies (#[trigger] shown(root, p) is Some <==> e@.contains_key(
        p,
    ) && leads_to_data(e@, p)) by {
        if live(root, p) {
            let s = choose|s: Path|
                under(p, s) && (#[trigger] root.find(s)) matches Some(SymNode::Leaf(_));
            assert(e@.contains_key(s) && e@[s] is Some);
        }
        if leads_to_data(e@, p) {
            let s = choose|s: Path| under(p, s) && #[trigger] e@.contains_key(s) && e@[s] is Some;
            assert(root.find(s) matches Some(SymNode::Leaf(_)));
            assert(live(root, p));
        }
    }
    assert forall|p: Path| #[trigger] m.contains_key(p) implies visible(m, p) by {
        assert forall|k: int| 0 <= k < p.len() implies m.contains_key(#[trigger] p.take(k)) && m[p.take(
            k,
        )].type_ == 0 by {
            let q = p.take(k);
            assert(p != none);
            assert(shown(root, p) is Some);
            lemma_find_prefix(root, p, k);
            if q != none {
                // a dataset at or below p is below q
                assert(leads_to_data(e@, p));
                let s = choose|s: Path|
                    under(p, s) && #[trigger] e@.contains_key(s) && e@[s] is Some;
                assert(s.take(k) =~= s.take(p.len() as int).take(k));
                assert(under(q, s));
                assert(leads_to_data(e@, q));
                assert(shown(root, q) is Some);
                assert(shown(root, q) == Some(None::<(Seq<u8>, DataView)>));
                assert(below(none, q));
                assert(h(from_here(none, q)) == shown(root, q));
                assert(m[q] == dir_meta());
            } else {
                assert(m[q] == dir_meta());
            }
        }
    }
    assert forall|p: Path| #[trigger] t.contains_key(p) <==> p == none || (e@.contains_key(p)
        && leads_to_data(e@, p)) by {
        assert(t.contains_key(p) == visible(m, p));
        assert(visible(m, p) ==> m.contains_key(p));
        if p != none {
            assert(shown(root, p) is Some <==> e@.contains_key(p) && leads_to_data(e@, p));
        }
    }
    assert forall|p: Path| #[trigger] t.contains_key(p) && e@[p] is None implies t[p] is None by {
        assert(visible(m, p));
        if p != none {
            assert(shown(root, p) is Some);
            assert(shown(root, p) == Some(None::<(Seq<u8>, DataView)>));
            assert(below(none, p));
            assert(h(from_here(none, p)) == shown(root, p));
            assert(m[p] == dir_meta());
        }
    }
    assert forall|p: Path| #[trigger] t.contains_key(p) && e@[p] is Some implies t[p] is Some
        && leaf_read(t[p]->0, seq![f]) == Ok::<ReadView, LsdaFault>((e@[p]->0)@.as_read()) by {
        assert(visible(m, p));
        if p == none {
            assert(e@.contains_key(none));
            assert(root.find(none) == Some(root));
        } else {
            let x = (p.last(), (e@[p]->0)@);
            assert(shown(root, p) == Some(Some(x)));
            assert(below(none, p));
            assert(h(from_here(none, p)) == shown(root, p));
            assert(told(m[p], x, g));
            lemma_told_reads(e, f, m[p], x);
            assert(m[p].type_ != 0);
        }
    }
}

/// A reader of the written file finds every dataset at its path and reads its
/// values.
pub proof fn law_reader_finds_datasets(b: Binout, e: BinoutEditor, p: Path)
    requires
        b.wf(),
        e.wf(),
        named_dirs(e.root),
        b.files@.len() == 1,
        is_written(b.files@[0], e),
    ensures
        e@.contains_key(p) && e@[p] is Some ==> b.tree.find(p) is Some && node_read(
            b.tree.find(p)->0,
            b.files@,
        ) == Ok::<ReadView, LsdaFault>((e@[p]->0)@.as_read()),
        b.tree.find(p) is Some ==> e@.contains_key(p),
{
    let f = b.files@[0];
    assert(b.files@ =~= seq![f]);
    law_written_tree_reads_back(e, f);
    let t = frozen((family_tables(seq![f], 1)->Ok_0).entries);
    assert(b.tree.contents() == t);
    assert(t.contains_key(p) <==> b.tree.find(p) is Some);
    if e@.contains_key(p) && e@[p] is Some {
        assert(p.take(p.len() as int) =~= p);
        assert(leads_to_data(e@, p));
        assert(t.contains_key(p));
    }
    if p == Path::empty() {
        assert(e.root.find(p) == Some(e.root));
    }
}

} // verus!
