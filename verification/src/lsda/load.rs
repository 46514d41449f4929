//! Loading a binout for editing.

use crate::lsda::binout::Binout;
use crate::lsda::data::{data_of, Data};
use crate::lsda::diskfile::Diskfile;
use crate::lsda::edit::BinoutEditor;
use crate::lsda::graft::{lemma_children_wf, lemma_leaf_wf};
use crate::lsda::order::{names, sorted};
use crate::lsda::symbol::leaf_read;
use crate::lsda::tree::{
    lemma_child_at, lemma_child_place, lemma_dir_wf, lemma_find_child, Path, SymMeta, SymNode,
};
use crate::lsda::{LsdaError, LsdaFault};
use crate::text::{decode_lossy, law_text_keeps_utf8, text_of};
use vstd::prelude::*;
use vstd::utf8::valid_utf8;
use vstd::slice::slice_to_vec;

verus! {

/// The name that a child is looked up by: its text, which differs from it where it
/// is no UTF-8.
pub open spec fn lookup_name(name: Seq<u8>) -> Seq<u8> {
    vstd::utf8::encode_utf8(text_of(name))
}

/// The place of the child that is found for child `i`.
pub open spec fn lookup_place(m: Seq<(Vec<u8>, SymNode)>, i: int) -> int {
    names(m).index_of(lookup_name(m[i].0@))
}

/// `to` holds what `from` does, with its datasets read from `files`.
pub open spec fn is_loaded(from: SymNode, files: Seq<Diskfile>, to: SymNode<Data>) -> bool
    decreases from, 0nat,
{
    match from {
        SymNode::Leaf(meta) => to matches SymNode::Leaf(d) && leaf_read(meta, files) is Ok && d@
            == data_of(leaf_read(meta, files)->Ok_0),
        SymNode::Dir(m) => to matches SymNode::Dir(k) && k@.len() == m@.len() && all_loaded(
            m,
            files,
            k@,
            m@.len(),
        ),
    }
}

/// The first `n` children are loaded.
pub open spec fn all_loaded(
    m: Vec<(Vec<u8>, SymNode)>,
    files: Seq<Diskfile>,
    k: Seq<(Vec<u8>, SymNode<Data>)>,
    n: nat,
) -> bool
    decreases m, n,
{
    if n == 0 {
        true
    } else if n > m@.len() {
        false
    } else {
        let i = n - 1;
        let j = lookup_place(m@, i);
        &&& all_loaded(m, files, k, (n - 1) as nat)
        &&& k[i].0@ == m@[i].0@
        &&& names(m@).contains(lookup_name(m@[i].0@))
        &&& 0 <= j < m@.len() && is_loaded(m@[j].1, files, k[i].1)
    }
}

/// What stops the loading of a directory: the first child whose text leads
/// nowhere, or whose data cannot be read.
pub open spec fn load_error(from: SymNode, files: Seq<Diskfile>) -> Option<LsdaFault>
    decreases from, 0nat,
{
    match from {
        SymNode::Leaf(meta) => match leaf_read(meta, files) {
            Ok(_) => None,
            Err(e) => Some(e),
        },
        SymNode::Dir(m) => children_error(m, files, m@.len()),
    }
}

/// What stops the loading of the first `n` children.
pub open spec fn children_error(
    m: Vec<(Vec<u8>, SymNode)>,
    files: Seq<Diskfile>,
    n: nat,
) -> Option<LsdaFault>
    decreases m, n,
{
    if n == 0 || n > m@.len() {
        None
    } else {
        let i = n - 1;
        let j = lookup_place(m@, i);
        match children_error(m, files, (n - 1) as nat) {
            Some(e) => Some(e),
            None => if !names(m@).contains(lookup_name(m@[i].0@)) || j < 0 || j >= m@.len() {
                Some(LsdaFault::SymbolNotFound(text_of(m@[i].0@)))
            } else {
                load_error(m@[j].1, files)
            },
        }
    }
}

proof fn lemma_children_error_stays(
    m: Vec<(Vec<u8>, SymNode)>,
    files: Seq<Diskfile>,
    i: nat,
    n: nat,
)
    requires
        i <= n <= m@.len(),
        children_error(m, files, i) is Some,
    ensures
        children_error(m, files, n) == children_error(m, files, i),
    decreases n,
{
    if i < n {
        lemma_children_error_stays(m, files, i, (n - 1) as nat);
    }
}

/// More children do not matter to those in front.
proof fn lemma_loaded_push(
    m: Vec<(Vec<u8>, SymNode)>,
    files: Seq<Diskfile>,
    k: Seq<(Vec<u8>, SymNode<Data>)>,
    x: (Vec<u8>, SymNode<Data>),
    n: nat,
)
    requires
        all_loaded(m, files, k, n),
        n <= k.len(),
        n <= m@.len(),
    ensures
        all_loaded(m, files, k.push(x), n),
    decreases n,
{
    if n > 0 {
        lemma_loaded_push(m, files, k, x, (n - 1) as nat);
    }
}

/// Loads a node.
fn load_dir(from: &SymNode, files: &Vec<Diskfile>) -> (r: Result<SymNode<Data>, LsdaError>)
    requires
        from.wf(),
    ensures
        match r {
            Ok(to) => load_error(*from, files@) is None && is_loaded(*from, files@, to) && to.wf(),
            Err(e) => load_error(*from, files@) == Some(e@),
        },
    decreases *from,
{
    match from {
        SymNode::Leaf(_) => match from.read(files) {
            Ok(v) => {
                let d: Data = Data::from_read(v);
                proof {
                    lemma_leaf_wf(d);
                }
                Ok(SymNode::Leaf(d))
            },
            Err(e) => Err(e),
        },
        SymNode::Dir(m) => {
            proof {
                lemma_children_wf(*m);
            }
            let mut out: Vec<(Vec<u8>, SymNode<Data>)> = Vec::new();
            for i in 0..m.len()
                invariant
                    *from == SymNode::<SymMeta>::Dir(*m),
                    from.wf(),
                    sorted(names(m@)),
                    forall|x: int| 0 <= x < m@.len() ==> (#[trigger] m@[x]).1.wf(),
                    out@.len() == i,
                    forall|x: int| 0 <= x < i ==> (#[trigger] out@[x]).1.wf(),
                    forall|x: int| 0 <= x < i ==> (#[trigger] out@[x]).0@ == m@[x].0@,
                    all_loaded(*m, files@, out@, i as nat),
                    children_error(*m, files@, i as nat) is None,
            {
                let name: String = decode_lossy(m[i].0.as_slice());
                let key: &[u8] = name.as_str().as_bytes();
                proof {
                    lemma_find_child(*m, key@);
                }
                match from.child(key) {
                    None => {
                        proof {
                            lemma_children_error_stays(
                                *m,
                                files@,
                                (i + 1) as nat,
                                m@.len(),
                            );
                        }
                        return Err(LsdaError::SymbolNotFound(name));
                    },
                    Some(c) => {
                        let ghost j = lookup_place(m@, i as int);
                        proof {
                            assert(names(m@)[j] == key@);
                            assert(*c == m@[j].1);
                            assert(decreases_to!(*from => m@[j].1));
                        }
                        match load_dir(c, files) {
                            Ok(sub) => {
                                let ghost had = out@;
                                out.push((slice_to_vec(m[i].0.as_slice()), sub));
                                proof {
                                    lemma_loaded_push(
                                        *m,
                                        files@,
                                        had,
                                        out@[i as int],
                                        i as nat,
                                    );
                                }
                            },
                            Err(e) => {
                                proof {
                                    lemma_children_error_stays(
                                        *m,
                                        files@,
                                        (i + 1) as nat,
                                        m@.len(),
                                    );
                                }
                                return Err(e);
                            },
                        }
                    },
                }
            }
            proof {
                assert(names(out@) =~= names(m@));
                lemma_dir_wf(out);
            }
            Ok(SymNode::Dir(out))
        },
    }
}

impl BinoutEditor {
    /// Loads all of a binout. A tree whose root is no directory holds nothing.
    pub fn from_binout(b: &Binout) -> (r: Result<Self, LsdaError>)
        requires
            b.wf(),
        ensures
            b.tree is Leaf ==> r is Ok,
            match r {
                Ok(e) => {
                    &&& e.wf()
                    &&& b.tree is Leaf ==> e@ == Map::<Path, Option<Data>>::empty().insert(
                        Path::empty(),
                        None,
                    )
                    &&& b.tree is Dir ==> load_error(b.tree, b.files@) is None && is_loaded(
                        b.tree,
                        b.files@,
                        e.root,
                    )
                },
                Err(x) => load_error(b.tree, b.files@) == Some(x@),
            },
    {
        if let SymNode::Leaf(_) = &b.tree {
            return Ok(BinoutEditor::new());
        }
        match load_dir(&b.tree, &b.files) {
            Ok(root) => Ok(BinoutEditor { root }),
            Err(e) => Err(e),
        }
    }
}

/// All names in the tree, those of leaves too, are texts.
pub open spec fn named_by_texts<L>(t: SymNode<L>) -> bool {
    forall|p: Path, k: int|
        t.find(p) is Some && 0 <= k < p.len() ==> valid_utf8(#[trigger] p[k])
}

/// Where names are texts, loading keeps the tree: the same directories, and at
/// every dataset its values.
pub proof fn law_loading_keeps_the_tree(
    from: SymNode,
    files: Seq<Diskfile>,
    to: SymNode<Data>,
    p: Path,
)
    requires
        is_loaded(from, files, to),
        from.wf(),
        named_by_texts(from),
    ensures
        from.find(p) is Some <==> to.find(p) is Some,
        from.find(p) is Some ==> is_loaded(from.find(p)->0, files, to.find(p)->0),
    decreases p.len(),
{
    if p.len() > 0 {
        if let SymNode::Dir(m) = from {
            if let SymNode::Dir(k) = to {
                lemma_children_wf(m);
                let rest = p.drop_first();
                if names(m@).contains(p[0]) {
                    let i = lemma_child_place(m@, p[0]);
                    lemma_child_at(m@, i);
                    lemma_loaded_child(from, m, files, k, i);
                    lemma_loaded_names(m, files, k@, m@.len());
                    assert(names(k@) =~= names(m@));
                    lemma_child_at(k@, i);
                    let c = m@[i].1;
                    assert(named_by_texts(c)) by {
                        assert forall|q: Path, x: int|
                            c.find(q) is Some && 0 <= x < q.len() implies valid_utf8(
                            #[trigger] q[x],
                        ) by {
                            let r = seq![p[0]] + q;
                            assert(r.drop_first() =~= q);
                            assert(from.find(r) is Some);
                            assert(r[x + 1] == q[x]);
                        }
                    }
                    law_loading_keeps_the_tree(c, files, k@[i].1, rest);
                } else {
                    lemma_loaded_names(m, files, k@, m@.len());
                    assert(names(k@) =~= names(m@));
                }
            }
        }
    }
}

proof fn lemma_loaded_names(
    m: Vec<(Vec<u8>, SymNode)>,
    files: Seq<Diskfile>,
    k: Seq<(Vec<u8>, SymNode<Data>)>,
    n: nat,
)
    requires
        all_loaded(m, files, k, n),
        n <= m@.len(),
    ensures
        forall|i: int| 0 <= i < n ==> (#[trigger] k[i]).0@ == m@[i].0@,
    decreases n,
{
    if n > 0 {
        lemma_loaded_names(m, files, k, (n - 1) as nat);
    }
}

proof fn lemma_loaded_at(
    m: Vec<(Vec<u8>, SymNode)>,
    files: Seq<Diskfile>,
    k: Seq<(Vec<u8>, SymNode<Data>)>,
    n: nat,
    i: int,
)
    requires
        all_loaded(m, files, k, n),
        n <= m@.len(),
        0 <= i < n,
    ensures
        names(m@).contains(lookup_name(m@[i].0@)),
        0 <= lookup_place(m@, i) < m@.len(),
        is_loaded(m@[lookup_place(m@, i)].1, files, k[i].1),
    decreases n,
{
    if i < n - 1 {
        lemma_loaded_at(m, files, k, (n - 1) as nat, i);
    }
}

/// The child that is loaded for child `i` is that child.
proof fn lemma_loaded_child(
    from: SymNode,
    m: Vec<(Vec<u8>, SymNode)>,
    files: Seq<Diskfile>,
    k: Vec<(Vec<u8>, SymNode<Data>)>,
    i: int,
)
    requires
        from == SymNode::<SymMeta>::Dir(m),
        from.wf(),
        named_by_texts(from),
        is_loaded(from, files, SymNode::Dir(k)),
        0 <= i < m@.len(),
    ensures
        m@[i].1.wf(),
        is_loaded(m@[i].1, files, k@[i].1),
{
    lemma_children_wf(m);
    lemma_child_at(m@, i);
    let name = m@[i].0@;
    lemma_find_child(m, name);
    let p = seq![name];
    assert(from.find(p) is Some);
    assert(valid_utf8(p[0]));
    law_text_keeps_utf8(p[0]);
    lemma_loaded_at(m, files, k@, m@.len(), i);
    let j = lookup_place(m@, i);
    assert(names(m@)[j] == name && names(m@)[i] == name);
    crate::lsda::order::lemma_one_place(names(m@), i, j);
}

} // verus!
