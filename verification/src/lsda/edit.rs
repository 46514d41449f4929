//! An LSDA tree in memory that can be changed and written out.

use crate::lsda::data::Data;
use crate::lsda::graft::{blocks, put, segments, take_out, under, with_leaf, without};
use crate::lsda::order::{names, sorted};
use crate::lsda::symbol::{lossy_all, texts};
use crate::lsda::tree::{child_of, in_order, lemma_dir_wf, lemma_find_child, Path, SymNode};
use crate::lsda::{LsdaError, LsdaFault};
use crate::text::{decode_lossy, text_of};
use vstd::prelude::*;

verus! {

/// A tree of datasets that can be changed and written out as an LSDA file.
pub struct BinoutEditor {
    pub root: SymNode<Data>,
}

impl Default for BinoutEditor {
    fn default() -> (r: Self)
        ensures
            r.wf(),
            r@ == Map::<Path, Option<Data>>::empty().insert(Path::empty(), None),
    {
        BinoutEditor::new()
    }
}

impl View for BinoutEditor {
    type V = Map<Path, Option<Data>>;

    /// Every path of the tree, with the dataset that is there, or `None` for a
    /// directory.
    open spec fn view(&self) -> Map<Path, Option<Data>> {
        self.root.contents()
    }
}

/// The names in the directory at `path`: exactly these, and in order.
pub open spec fn listed<L>(m: Map<Path, Option<L>>, path: Path, ns: Seq<Seq<u8>>) -> bool {
    &&& sorted(ns)
    &&& forall|n: Seq<u8>| #[trigger] ns.contains(n) <==> m.contains_key(path.push(n))
}

/// A dataset stands where a directory should be.
pub open spec fn blocked_text(path: Seq<&str>, j: int) -> Seq<char> {
    if j == path.len() - 1 {
        "parent is a dataset, not a directory"@
    } else {
        "'"@ + path[j]@ + "' is a dataset, not a directory"@
    }
}

impl BinoutEditor {
    /// The root is a directory, and names are in order throughout.
    pub open spec fn wf(self) -> bool {
        self.root is Dir && self.root.wf()
    }

    /// An empty tree.
    pub fn new() -> (r: Self)
        ensures
            r.wf(),
            r@ == Map::<Path, Option<Data>>::empty().insert(Path::empty(), None),
    {
        let none: Vec<(Vec<u8>, SymNode<Data>)> = Vec::new();
        let r = BinoutEditor { root: SymNode::Dir(none) };
        proof {
            lemma_dir_wf(none);
            let want = Map::<Path, Option<Data>>::empty().insert(Path::empty(), None);
            assert forall|q: Path| #[trigger] r@.dom().contains(q) == want.dom().contains(q) by {
                crate::lsda::graft::lemma_contents_step(none, q);
                if q.len() == 0 {
                    assert(q =~= Path::empty());
                }
            }
            assert(r@ =~= want);
        }
        r
    }

    /// The names in the directory at `path`, in order; `None` when no directory is
    /// there.
    pub fn list(&self, path: &[&str]) -> (r: Option<Vec<String>>)
        requires
            self.wf(),
        ensures
            r is Some <==> self@.contains_key(segments(path@)) && self@[segments(path@)] is None,
            r matches Some(v) ==> exists|ns: Seq<Seq<u8>>|
                listed(self@, segments(path@), ns) && texts(v@) == lossy_all(ns),
    {
        let ghost p = segments(path@);
        match self.resolve(path) {
            Some(SymNode::Dir(m)) => {
                let mut out: Vec<String> = Vec::new();
                for i in 0..m.len()
                    invariant
                        out@.len() == i,
                        forall|k: int| 0 <= k < i ==> (#[trigger] out@[k])@ == text_of(
                            names(m@)[k],
                        ),
                {
                    out.push(decode_lossy(m[i].0.as_slice()));
                }
                proof {
                    let ns = names(m@);
                    assert(texts(out@) =~= lossy_all(ns));
                    assert(in_order(self.root.find(p)));
                    assert forall|n: Seq<u8>| #[trigger]
                        ns.contains(n) <==> self@.contains_key(p.push(n)) by {
                        lemma_find_push(self.root, p, n);
                        lemma_find_child(*m, n);
                    }
                    assert(listed(self@, p, ns));
                }
                Some(out)
            },
            _ => None,
        }
    }

    /// The dataset at `path`, if one is there.
    pub fn get(&self, path: &[&str]) -> (r: Option<&Data>)
        requires
            self.wf(),
        ensures
            r is Some <==> self@.contains_key(segments(path@)) && self@[segments(path@)] is Some,
            r matches Some(d) ==> self@[segments(path@)] == Some(*d),
    {
        match self.resolve(path) {
            Some(SymNode::Leaf(d)) => Some(d),
            _ => None,
        }
    }

    /// Puts a dataset at `path`, making the directories on the way, and replacing
    /// what is there. It is an error if a dataset is on the way.
    pub fn set(&mut self, path: &[&str], data: Data) -> (r: Result<(), LsdaError>)
        requires
            old(self).wf(),
        ensures
            final(self).wf(),
            r is Ok <==> path@.len() > 0 && forall|j: int|
                !#[trigger] blocks(old(self)@, segments(path@), j),
            r is Ok ==> final(self)@ == with_leaf(old(self)@, segments(path@), data),
            r matches Err(e) ==> {
                &&& *final(self) == *old(self)
                &&& path@.len() == 0 ==> e@ == LsdaFault::InvalidPath("cannot set the root"@)
                &&& path@.len() > 0 ==> exists|j: int|
                    blocks(old(self)@, segments(path@), j) && e@ == LsdaFault::InvalidPath(
                        blocked_text(path@, j),
                    )
            },
    {
        if path.len() == 0 {
            return Err(LsdaError::InvalidPath(String::from_str("cannot set the root")));
        }
        let ghost p = segments(path@);
        match self.blocker(path) {
            Some(j) => {
                let mut s: String = String::from_str("");
                if j == path.len() - 1 {
                    s.append("parent is a dataset, not a directory");
                } else {
                    s.append("'");
                    s.append(path[j]);
                    s.append("' is a dataset, not a directory");
                }
                proof {
                    reveal_strlit("");
                    assert(s@ =~= blocked_text(path@, j as int));
                }
                return Err(LsdaError::InvalidPath(s));
            },
            None => {},
        }
        let mut root: SymNode<Data> = SymNode::Dir(Vec::new());
        let ghost before = self@;
        assert(forall|j: int| !#[trigger] blocks(before, p, j));
        std::mem::swap(&mut root, &mut self.root);
        assert(p.skip(0) =~= p);
        assert forall|j: int| !#[trigger] blocks(
            root.contents(),
            segments(path@).skip(0),
            j,
        ) by {
            assert(!blocks(before, p, j));
        }
        self.root = put(root, path, 0, data);
        Ok(())
    }

    /// How many names of `path` lead to a dataset that is in the way.
    fn blocker(&self, path: &[&str]) -> (r: Option<usize>)
        requires
            self.wf(),
            path@.len() > 0,
        ensures
            match r {
                Some(j) => blocks(self@, segments(path@), j as int),
                None => forall|j: int| !#[trigger] blocks(self@, segments(path@), j),
            },
    {
        let ghost p = segments(path@);
        let mut node: &SymNode<Data> = &self.root;
        let mut i: usize = 0;
        assert(p.take(0) =~= Path::empty());
        let last: usize = path.len() - 1;
        while i < last
            invariant
                i <= last,
                last == path@.len() - 1,
                p == segments(path@),
                self.wf(),
                self.root.find(p.take(i as int)) == Some(*node),
                node.wf(),
                i == 0 ==> *node is Dir,
                forall|j: int| j < i ==> !#[trigger] blocks(self@, p, j),
            decreases last - i,
        {
            if let SymNode::Leaf(_) = node {
                return Some(i);
            }
            let seg: &[u8] = path[i].as_bytes();
            assert(p[i as int] == seg@);
            assert(p.take(i + 1) =~= p.take(i as int).push(seg@));
            proof {
                lemma_find_push(self.root, p.take(i as int), seg@);
            }
            match node.child(seg) {
                Some(c) => {
                    assert(!blocks(self@, p, i as int));
                    node = c;
                },
                None => {
                    assert forall|j: int| !#[trigger] blocks(self@, p, j) by {
                        if j > i && blocks(self@, p, j) {
                            crate::lsda::graft::lemma_find_prefix(self.root, p.take(j), i + 1);
                            assert(p.take(j).take(i + 1) =~= p.take(i + 1));
                        }
                    }
                    return None;
                },
            }
            i = i + 1;
        }
        if i > 0 {
            if let SymNode::Leaf(_) = node {
                return Some(i);
            }
        }
        None
    }

    /// Takes out the dataset or directory at `path`; says whether there was one.
    pub fn remove(&mut self, path: &[&str]) -> (r: bool)
        requires
            old(self).wf(),
        ensures
            final(self).wf(),
            r == (path@.len() > 0 && old(self)@.contains_key(segments(path@))),
            path@.len() > 0 ==> final(self)@ == without(old(self)@, segments(path@)),
            path@.len() == 0 ==> final(self)@ == old(self)@,
    {
        if path.len() == 0 {
            return false;
        }
        let ghost p = segments(path@);
        assert(p.skip(0) =~= p);
        let mut root: SymNode<Data> = SymNode::Dir(Vec::new());
        std::mem::swap(&mut root, &mut self.root);
        let (rest, found) = take_out(root, path, 0);
        self.root = rest;
        found
    }

    /// The node at `path`.
    fn resolve(&self, path: &[&str]) -> (r: Option<&SymNode<Data>>)
        requires
            self.wf(),
        ensures
            match r {
                Some(n) => self.root.find(segments(path@)) == Some(*n),
                None => self.root.find(segments(path@)) is None,
            },
    {
        let ghost p = segments(path@);
        let mut node: &SymNode<Data> = &self.root;
        let mut i: usize = 0;
        assert(p.take(0) =~= Path::empty());
        while i < path.len()
            invariant
                i <= path@.len(),
                p == segments(path@),
                self.root.find(p.take(i as int)) == Some(*node),
                node.wf(),
            decreases path@.len() - i,
        {
            let seg: &[u8] = path[i].as_bytes();
            assert(p[i as int] == seg@);
            assert(p.take(i + 1) =~= p.take(i as int).push(seg@));
            proof {
                lemma_find_push(self.root, p.take(i as int), seg@);
            }
            match node.child(seg) {
                Some(c) => {
                    node = c;
                },
                None => {
                    proof {
                        if self.root.find(p) is Some {
                            crate::lsda::graft::lemma_find_prefix(self.root, p, i + 1);
                        }
                    }
                    return None;
                },
            }
            i = i + 1;
        }
        assert(p.take(path@.len() as int) =~= p);
        Some(node)
    }
}

/// One step further down.
pub proof fn lemma_find_push<L>(n: SymNode<L>, p: Path, name: Seq<u8>)
    ensures
        n.find(p.push(name)) == match n.find(p) {
            Some(x) => x.find(seq![name]),
            None => None,
        },
    decreases p.len(),
{
    if p.len() == 0 {
        assert(p.push(name) =~= seq![name]);
    } else {
        let q = p.push(name);
        assert(q.drop_first() =~= p.drop_first().push(name));
        assert(q[0] == p[0]);
        if let SymNode::Dir(m) = n {
            if let Some(c) = child_of(m@, p[0]) {
                lemma_find_push(c, p.drop_first(), name);
            }
        }
    }
}

/// A dataset that was set is there, and what does not lie at its path, below it or
/// on the way to it is as it was.
pub proof fn law_get_after_set<L>(m: Map<Path, Option<L>>, p: Path, l: L)
    requires
        p.len() > 0,
    ensures
        with_leaf(m, p, l).contains_key(p),
        with_leaf(m, p, l)[p] == Some(l),
        forall|q: Path|
            !under(p, q) && !under(q, p) ==> (with_leaf(m, p, l).contains_key(q)
                <==> m.contains_key(q)) && (m.contains_key(q) ==> with_leaf(m, p, l)[q] == m[q]),
{
    assert(p.take(p.len() as int) =~= p);
}

/// What was removed is gone with all that lay below, and the rest is as it was.
pub proof fn law_get_after_remove<L>(m: Map<Path, Option<L>>, p: Path)
    ensures
        forall|q: Path| under(p, q) ==> !without(m, p).contains_key(q),
        forall|q: Path|
            !under(p, q) ==> (without(m, p).contains_key(q) <==> m.contains_key(q)) && (
            m.contains_key(q) ==> without(m, p)[q] == m[q]),
{
}

/// Setting a dataset twice is setting the second one.
pub proof fn law_last_set_wins<L>(m: Map<Path, Option<L>>, p: Path, a: L, b: L)
    ensures
        with_leaf(with_leaf(m, p, a), p, b) == with_leaf(m, p, b),
{
    assert(p.take(p.len() as int) =~= p);
    assert(with_leaf(with_leaf(m, p, a), p, b) =~= with_leaf(m, p, b));
}

} // verus!
