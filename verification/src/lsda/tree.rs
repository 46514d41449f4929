//! Trees of named nodes.

use crate::lsda::order::{lemma_one_place, names, search, sorted};
use vstd::prelude::*;

verus! {

/// Location and type of a dataset in the file family.
#[derive(Debug, Clone, Copy, PartialEq, Eq, Structural)]
pub struct SymMeta {
    pub type_: u8,
    pub offset: u64,
    pub length: u64,
    pub file_index: usize,
    pub name_len: usize,
}

/// A node of a tree: a directory, whose children are in the order of their names,
/// or a leaf.
pub enum SymNode<L = SymMeta> {
    Dir(Vec<(Vec<u8>, SymNode<L>)>),
    Leaf(L),
}

/// The names on the way from the root to a node.
pub type Path = Seq<Seq<u8>>;

/// The child of a list of children that has the name.
pub open spec fn child_of<L>(m: Seq<(Vec<u8>, SymNode<L>)>, name: Seq<u8>) -> Option<SymNode<L>> {
    if names(m).contains(name) {
        Some(m[names(m).index_of(name)].1)
    } else {
        None
    }
}

/// The node, if it is a directory, has its children in order.
pub open spec fn in_order<L>(n: Option<SymNode<L>>) -> bool {
    n matches Some(SymNode::Dir(m)) ==> sorted(names(m@))
}

impl<L> SymNode<L> {
    /// The node that a path leads to.
    pub open spec fn find(self, path: Path) -> Option<SymNode<L>>
        decreases path.len(),
    {
        if path.len() == 0 {
            Some(self)
        } else {
            match self {
                SymNode::Dir(m) => match child_of(m@, path[0]) {
                    Some(c) => c.find(path.drop_first()),
                    None => None,
                },
                SymNode::Leaf(_) => None,
            }
        }
    }

    /// The children of every directory are in order.
    pub open spec fn wf(self) -> bool {
        forall|p: Path| in_order(#[trigger] self.find(p))
    }

    /// What the tree holds: every path that leads to a node, with the leaf that is
    /// there, or `None` for a directory.
    pub open spec fn contents(self) -> Map<Path, Option<L>> {
        Map::new(
            |p: Path| self.find(p) is Some,
            |p: Path|
                match self.find(p)->0 {
                    SymNode::Dir(_) => None,
                    SymNode::Leaf(l) => Some(l),
                },
        )
    }

    /// Child by name; a leaf has none.
    pub fn child(&self, seg: &[u8]) -> (r: Option<&SymNode<L>>)
        requires
            self.wf(),
        ensures
            r is Some <==> self.find(seq![seg@]) is Some,
            r matches Some(c) ==> self.find(seq![seg@]) == Some(*c) && c.wf(),
    {
        proof {
            assert(self.find(Seq::<Seq<u8>>::empty()) == Some(*self));
        }
        match self {
            SymNode::Dir(m) => {
                proof {
                    lemma_find_child(*m, seg@);
                }
                match search(m, seg) {
                    Ok(i) => {
                        let c = &m[i].1;
                        proof {
                            lemma_child_at(m@, i as int);
                            lemma_child_wf(*self, seg@);
                        }
                        Some(c)
                    },
                    Err(_) => None,
                }
            },
            SymNode::Leaf(_) => None,
        }
    }
}

/// The child at a place of a list in order is the one that its name gives.
pub proof fn lemma_child_at<L>(m: Seq<(Vec<u8>, SymNode<L>)>, i: int)
    requires
        sorted(names(m)),
        0 <= i < m.len(),
    ensures
        child_of(m, m[i].0@) == Some(m[i].1),
{
    assert(names(m)[i] == m[i].0@);
    assert(names(m).contains(m[i].0@));
    let j = names(m).index_of(m[i].0@);
    lemma_one_place(names(m), i, j);
}

/// A child found by name stands somewhere in the list.
pub proof fn lemma_child_place<L>(m: Seq<(Vec<u8>, SymNode<L>)>, name: Seq<u8>) -> (i: int)
    requires
        child_of(m, name) is Some,
    ensures
        0 <= i < m.len(),
        m[i].0@ == name,
        child_of(m, name) == Some(m[i].1),
{
    let i = names(m).index_of(name);
    assert(names(m)[i] == m[i].0@);
    i
}

/// A path of one name leads to the child of that name.
pub proof fn lemma_find_child<L>(m: Vec<(Vec<u8>, SymNode<L>)>, name: Seq<u8>)
    ensures
        SymNode::Dir(m).find(seq![name]) == child_of(m@, name),
{
    reveal_with_fuel(SymNode::find, 2);
    assert(seq![name].drop_first() =~= Seq::<Seq<u8>>::empty());
}

/// One step down, then the rest of the way.
pub proof fn lemma_find_step<L>(n: SymNode<L>, name: Seq<u8>, rest: Path)
    requires
        n.find(seq![name]) is Some,
    ensures
        n.find(seq![name] + rest) == (n.find(seq![name])->0).find(rest),
{
    let p = seq![name] + rest;
    assert(p.drop_first() =~= rest);
    if let SymNode::Dir(m) = n {
        lemma_find_child(m, name);
    }
}

/// A child of an orderly tree is orderly.
pub proof fn lemma_child_wf<L>(n: SymNode<L>, name: Seq<u8>)
    requires
        n.wf(),
        n.find(seq![name]) is Some,
    ensures
        (n.find(seq![name])->0).wf(),
{
    let c = n.find(seq![name])->0;
    assert forall|p: Path| in_order(#[trigger] c.find(p)) by {
        lemma_find_step(n, name, p);
        assert(n.find(seq![name] + p) == c.find(p));
    }
}

/// A directory of orderly children in order is orderly.
pub proof fn lemma_dir_wf<L>(m: Vec<(Vec<u8>, SymNode<L>)>)
    requires
        sorted(names(m@)),
        forall|i: int| 0 <= i < m@.len() ==> (#[trigger] m@[i]).1.wf(),
    ensures
        SymNode::Dir(m).wf(),
{
    let n = SymNode::Dir(m);
    assert forall|p: Path| in_order(#[trigger] n.find(p)) by {
        if p.len() > 0 && n.find(p) is Some {
            let i = lemma_child_place(m@, p[0]);
            assert(m@[i].1.wf());
            assert(m@[i].1.find(p.drop_first()) == n.find(p));
        }
    }
}

} // verus!
