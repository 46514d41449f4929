//! Names that are texts, and that stand for themselves in a path.

use crate::lsda::data::Data;
use crate::lsda::edit::BinoutEditor;
use crate::lsda::graft::lemma_children_wf;
use crate::lsda::load::named_by_texts;
use crate::lsda::order::names;
use crate::lsda::paths::plain_name;
use crate::lsda::roundtrip::named_dirs;
use crate::lsda::tree::{lemma_child_at, Path, SymNode};
use crate::text::is_utf8;
use vstd::prelude::*;
use vstd::utf8::valid_utf8;

verus! {

/// The name of child `i` is a text, and so are all names below it. If it is a
/// directory, its name stands for itself in a path, as do those of all directories
/// below it.
spec fn child_named(m: Seq<(Vec<u8>, SymNode<Data>)>, i: int) -> bool {
    &&& valid_utf8(m[i].0@)
    &&& m[i].1 is Dir ==> plain_name(m[i].0@)
    &&& named_dirs(m[i].1)
    &&& named_by_texts(m[i].1)
}

proof fn lemma_child_named(m: Vec<(Vec<u8>, SymNode<Data>)>, i: int)
    requires
        SymNode::Dir(m).wf(),
        named_dirs(SymNode::Dir(m)),
        named_by_texts(SymNode::Dir(m)),
        0 <= i < m@.len(),
    ensures
        child_named(m@, i),
{
    let n = SymNode::Dir(m);
    let name = m@[i].0@;
    let c = m@[i].1;
    lemma_children_wf(m);
    lemma_child_at(m@, i);
    assert forall|q: Path| #[trigger] n.find(seq![name] + q) == c.find(q) by {
        assert((seq![name] + q).drop_first() =~= q);
    }
    let one = seq![name] + Path::empty();
    assert(n.find(one) == Some(c));
    assert(one[0] == name);
    assert forall|q: Path, k: int|
        (c.find(q) matches Some(SymNode::Dir(_))) && 0 <= k < q.len() implies plain_name(
        #[trigger] q[k],
    ) && valid_utf8(q[k]) by {
        let r = seq![name] + q;
        assert(n.find(r) == c.find(q));
        assert(r[k + 1] == q[k]);
    }
    assert forall|q: Path, k: int| c.find(q) is Some && 0 <= k < q.len() implies valid_utf8(
        #[trigger] q[k],
    ) by {
        let r = seq![name] + q;
        assert(n.find(r) == c.find(q));
        assert(r[k + 1] == q[k]);
    }
}

proof fn lemma_children_named(m: Vec<(Vec<u8>, SymNode<Data>)>)
    requires
        SymNode::Dir(m).wf(),
        forall|i: int| 0 <= i < m@.len() ==> #[trigger] child_named(m@, i),
    ensures
        named_dirs(SymNode::Dir(m)),
        named_by_texts(SymNode::Dir(m)),
{
    let n = SymNode::Dir(m);
    assert forall|p: Path, k: int| n.find(p) is Some && 0 <= k < p.len() implies valid_utf8(
        #[trigger] p[k],
    ) && (n.find(p)->0 is Dir ==> plain_name(p[k])) by {
        let i = names(m@).index_of(p[0]);
        let q = p.drop_first();
        assert(names(m@).contains(p[0]));
        assert(names(m@)[i] == p[0]);
        assert(child_named(m@, i));
        assert(n.find(p) == m@[i].1.find(q));
        if k > 0 {
            assert(q[k - 1] == p[k]);
        } else if q.len() == 0 {
            assert(m@[i].1.find(q) == Some(m@[i].1));
        } else {
            assert(m@[i].1 is Dir);
        }
    }
}

fn is_plain(name: &[u8]) -> (r: bool)
    ensures
        r == plain_name(name@),
{
    let n: usize = name.len();
    if n == 0 {
        return false;
    }
    if n == 2 && name[0] == 46 && name[1] == 46 {
        assert(name@ =~= seq![46u8, 46u8]);
        return false;
    }
    assert(name@ != seq![46u8, 46u8]) by {
        if name@ == seq![46u8, 46u8] {
            assert(name@[0] == 46 && name@[1] == 46);
        }
    }
    for i in 0..n
        invariant
            n == name@.len(),
            forall|k: int| 0 <= k < i ==> #[trigger] name@[k] != 47,
    {
        if name[i] == 47 {
            assert(name@[i as int] == 47);
            return false;
        }
    }
    true
}

fn children_are_named(m: &Vec<(Vec<u8>, SymNode<Data>)>) -> (r: bool)
    requires
        SymNode::Dir(*m).wf(),
    ensures
        r <==> forall|i: int| 0 <= i < m@.len() ==> #[trigger] child_named(m@, i),
    decreases *m, 0nat,
{
    for i in 0..m.len()
        invariant
            SymNode::Dir(*m).wf(),
            forall|k: int| 0 <= k < i ==> #[trigger] child_named(m@, k),
    {
        proof {
            lemma_children_wf(*m);
            assert(decreases_to!(*m => m@[i as int].1));
        }
        let plain: bool = match &m[i].1 {
            SymNode::Dir(_) => is_plain(m[i].0.as_slice()),
            SymNode::Leaf(_) => true,
        };
        if !plain || !is_utf8(m[i].0.as_slice()) || !is_named(&m[i].1) {
            assert(!child_named(m@, i as int));
            return false;
        }
    }
    true
}

fn is_named(n: &SymNode<Data>) -> (r: bool)
    requires
        n.wf(),
    ensures
        r <==> named_dirs(*n) && named_by_texts(*n),
    decreases *n, 1nat,
{
    match n {
        SymNode::Dir(m) => {
            let r: bool = children_are_named(m);
            proof {
                if r {
                    lemma_children_named(*m);
                } else if named_dirs(*n) && named_by_texts(*n) {
                    let i = choose|i: int| 0 <= i < m@.len() && !#[trigger] child_named(m@, i);
                    lemma_child_named(*m, i);
                }
            }
            r
        },
        SymNode::Leaf(_) => true,
    }
}

impl BinoutEditor {
    /// Tells whether the tree can be written and read back: all names are texts, and
    /// those of directories stand for themselves in a path.
    pub fn names_are_texts(&self) -> (r: bool)
        requires
            self.wf(),
        ensures
            r <==> named_dirs(self.root) && named_by_texts(self.root),
    {
        is_named(&self.root)
    }
}

} // verus!
