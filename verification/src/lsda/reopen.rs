//! Opening files for editing, and what an editor finds of what another one wrote.

use crate::lsda::arena::frozen;
use crate::lsda::binout::{are_files_of, family_fault, is_file_of, Binout};
use crate::lsda::data::{data_of, Data};
use crate::lsda::diskfile::Diskfile;
use crate::lsda::edit::BinoutEditor;
use crate::lsda::graft::lemma_children_wf;
use crate::lsda::load::{
    children_error, is_loaded, law_loading_keeps_the_tree, load_error, lookup_name, lookup_place,
    named_by_texts,
};
use crate::lsda::order::{lemma_one_place, names};
use crate::lsda::roundtrip::{
    is_written, law_written_tree_reads_back, leads_to_data, lemma_header_bytes, named_dirs,
};
use crate::lsda::symbol::leaf_read;
use crate::lsda::table::family_tables;
use crate::lsda::tree::{lemma_child_at, Path, SymMeta, SymNode};
use crate::lsda::{LsdaError, LsdaFault};
use crate::text::law_text_keeps_utf8;
use vstd::prelude::*;
use vstd::utf8::valid_utf8;

verus! {

/// The data of every dataset can be read.
pub open spec fn all_readable(t: SymNode, files: Seq<Diskfile>) -> bool {
    forall|p: Path| #[trigger]
        t.find(p) is Some ==> (t.find(p)->0 matches SymNode::Leaf(meta) ==> leaf_read(
            meta,
            files,
        ) is Ok)
}

/// A child of a tree whose names are texts, and whose data can be read, is such a tree
/// itself, and is found by its text.
proof fn lemma_child_loads(m: Vec<(Vec<u8>, SymNode)>, files: Seq<Diskfile>, i: int)
    requires
        SymNode::<SymMeta>::Dir(m).wf(),
        named_by_texts(SymNode::<SymMeta>::Dir(m)),
        all_readable(SymNode::<SymMeta>::Dir(m), files),
        0 <= i < m@.len(),
    ensures
        m@[i].1.wf(),
        named_by_texts(m@[i].1),
        all_readable(m@[i].1, files),
        names(m@).contains(lookup_name(m@[i].0@)),
        lookup_place(m@, i) == i,
{
    let t = SymNode::<SymMeta>::Dir(m);
    let name = m@[i].0@;
    let c = m@[i].1;
    lemma_children_wf(m);
    lemma_child_at(m@, i);
    assert forall|q: Path| c.find(q) is Some implies #[trigger] t.find(seq![name] + q) == c.find(
        q,
    ) by {
        let r = seq![name] + q;
        assert(r.drop_first() =~= q);
        assert(r[0] == name);
    }
    assert forall|q: Path, x: int| c.find(q) is Some && 0 <= x < q.len() implies valid_utf8(
        #[trigger] q[x],
    ) by {
        let r = seq![name] + q;
        assert(t.find(r) is Some);
        assert(r[x + 1] == q[x]);
    }
    assert forall|q: Path| #[trigger] c.find(q) is Some implies (
    c.find(q)->0 matches SymNode::Leaf(meta) ==> leaf_read(meta, files) is Ok) by {
        assert(t.find(seq![name] + q) is Some);
    }
    let none = Path::empty();
    assert(c.find(none) == Some(c));
    let one = seq![name] + none;
    assert(t.find(one) is Some);
    assert(one[0] == name);
    assert(valid_utf8(one[0]));
    law_text_keeps_utf8(name);
    assert(names(m@)[i] == name);
    lemma_one_place(names(m@), i, lookup_place(m@, i));
}

/// A tree whose names are texts, and whose data can be read, is loaded.
proof fn lemma_loads(t: SymNode, files: Seq<Diskfile>)
    requires
        t.wf(),
        named_by_texts(t),
        all_readable(t, files),
    ensures
        load_error(t, files) is None,
    decreases t, 0nat,
{
    match t {
        SymNode::Leaf(meta) => {
            let none = Path::empty();
            assert(t.find(none) == Some(t));
        },
        SymNode::Dir(m) => {
            lemma_children_load(m, files, m@.len());
        },
    }
}

proof fn lemma_children_load(m: Vec<(Vec<u8>, SymNode)>, files: Seq<Diskfile>, n: nat)
    requires
        SymNode::<SymMeta>::Dir(m).wf(),
        named_by_texts(SymNode::<SymMeta>::Dir(m)),
        all_readable(SymNode::<SymMeta>::Dir(m), files),
        n <= m@.len(),
    ensures
        children_error(m, files, n) is None,
    decreases m, n,
{
    if n > 0 {
        lemma_children_load(m, files, (n - 1) as nat);
        lemma_child_loads(m, files, n - 1);
        lemma_loads(m@[n - 1].1, files);
    }
}

/// What is there when the tree `m` was written and opened again: every dataset with its
/// values, texts as their bytes; every directory that leads to a dataset, and nothing
/// else.
pub open spec fn reopened(m: Map<Path, Option<Data>>, to: Map<Path, Option<Data>>) -> bool {
    &&& forall|p: Path| #[trigger]
        to.contains_key(p) <==> p == Path::empty() || (m.contains_key(p) && leads_to_data(m, p))
    &&& forall|p: Path| #[trigger]
        m.contains_key(p) && m[p] is Some ==> to.contains_key(p) && to[p] is Some && (to[p]->0)@
            == data_of((m[p]->0)@.as_read())
    &&& forall|p: Path| #[trigger] to.contains_key(p) && to[p] is Some ==> m[p] is Some
}

/// What an editor wrote can be opened for editing again, and holds what was written.
/// The names must be texts, and those of directories must stand for themselves in a
/// path.
pub proof fn law_written_editor_opens(e: BinoutEditor, b: Binout, opened: BinoutEditor)
    requires
        e.wf(),
        named_dirs(e.root),
        named_by_texts(e.root),
        b.wf(),
        b.files@.len() == 1,
        is_written(b.files@[0], e),
    ensures
        b.tree is Dir,
        load_error(b.tree, b.files@) is None,
        is_loaded(b.tree, b.files@, opened.root) ==> reopened(e@, opened@),
{
    let f = b.files@[0];
    assert(b.files@ =~= seq![f]);
    law_written_tree_reads_back(e, f);
    let t = frozen((family_tables(seq![f], 1)->Ok_0).entries);
    assert(b.tree.contents() == t);
    let none = Path::empty();
    assert(e.root.find(none) == Some(e.root));
    assert(b.tree.find(none) == Some(b.tree));
    assert(t.contains_key(none));
    assert forall|p: Path| #[trigger] b.tree.find(p) is Some implies t.contains_key(p)
        && e@.contains_key(p) && (b.tree.find(p)->0 matches SymNode::Leaf(meta) ==> t[p] == Some(
        meta,
    ) && e@[p] is Some && leaf_read(meta, b.files@) == Ok::<_, crate::lsda::LsdaFault>(
        (e@[p]->0)@.as_read(),
    )) by {
        assert(t.contains_key(p));
    }
    assert(named_by_texts(b.tree)) by {
        assert forall|p: Path, k: int| b.tree.find(p) is Some && 0 <= k < p.len() implies valid_utf8(
            #[trigger] p[k],
        ) by {
            assert(e@.contains_key(p));
            assert(e.root.find(p) is Some);
        }
    }
    lemma_loads(b.tree, b.files@);
    if is_loaded(b.tree, b.files@, opened.root) {
        assert forall|p: Path| #[trigger] opened@.contains_key(p) <==> p == none || (
        e@.contains_key(p) && leads_to_data(e@, p)) by {
            law_loading_keeps_the_tree(b.tree, b.files@, opened.root, p);
            assert(t.contains_key(p) <==> b.tree.find(p) is Some);
        }
        assert forall|p: Path| #[trigger]
            e@.contains_key(p) && e@[p] is Some implies opened@.contains_key(p) && opened@[p] is Some
            && (opened@[p]->0)@ == data_of((e@[p]->0)@.as_read()) by {
            assert(p.take(p.len() as int) =~= p);
            assert(leads_to_data(e@, p));
            assert(t.contains_key(p));
            assert(b.tree.find(p) is Some);
            law_loading_keeps_the_tree(b.tree, b.files@, opened.root, p);
        }
        assert forall|p: Path| #[trigger]
            opened@.contains_key(p) && opened@[p] is Some implies e@[p] is Some by {
            law_loading_keeps_the_tree(b.tree, b.files@, opened.root, p);
            assert(b.tree.find(p) is Some);
        }
    }
}

/// The binout is that of files with these bytes.
pub open spec fn is_binout_of(b: Binout, maps: Seq<Vec<u8>>) -> bool {
    b.wf() && are_files_of(b.files@, maps)
}

/// The editor holds what the binout does; nothing, where its root is no directory.
pub open spec fn opened_as(b: Binout, o: BinoutEditor) -> bool {
    match b.tree {
        SymNode::Leaf(_) => o@ == Map::<Path, Option<Data>>::empty().insert(Path::empty(), None),
        SymNode::Dir(_) => load_error(b.tree, b.files@) is None && is_loaded(
            b.tree,
            b.files@,
            o.root,
        ),
    }
}

/// The bytes are those that `e` writes, with names that can be read back.
pub open spec fn are_written_by(maps: Seq<Vec<u8>>, e: BinoutEditor) -> bool {
    &&& maps.len() == 1
    &&& maps[0]@ == e.image()
    &&& e.wf()
    &&& named_dirs(e.root)
    &&& named_by_texts(e.root)
}

/// The tables of a written file can be read.
proof fn lemma_written_family(maps: Seq<Vec<u8>>, e: BinoutEditor, files: Seq<Diskfile>)
    requires
        are_written_by(maps, e),
    ensures
        maps[0]@.len() >= 8,
        are_files_of(files, maps) ==> is_written(files[0], e) && family_tables(files, files.len())
            is Ok,
{
    lemma_header_bytes(e.groups());
    if are_files_of(files, maps) {
        assert(is_file_of(files[0], maps[0]));
        assert(files =~= seq![files[0]]);
        law_written_tree_reads_back(e, files[0]);
    }
}

/// A written file is no family that cannot be read.
proof fn lemma_no_fault(maps: Seq<Vec<u8>>, e: BinoutEditor, x: LsdaFault)
    requires
        family_fault(maps, x),
    ensures
        !are_written_by(maps, e),
{
    if are_written_by(maps, e) {
        lemma_written_family(maps, e, Seq::empty());
        assert forall|files: Seq<Diskfile>| #[trigger] are_files_of(files, maps) implies family_tables(
            files,
            files.len(),
        ) is Ok by {
            lemma_written_family(maps, e, files);
        }
    }
}

impl BinoutEditor {
    /// Opens the bytes of the files of a family, in the order of their names, for
    /// editing. What an editor wrote is there again.
    pub fn open(maps: Vec<Vec<u8>>) -> (r: Result<Self, LsdaError>)
        ensures
            match r {
                Ok(o) => {
                    &&& o.wf()
                    &&& exists|b: Binout| #[trigger] is_binout_of(b, maps@) && opened_as(b, o)
                },
                Err(x) => {
                    ||| family_fault(maps@, x@)
                    ||| exists|b: Binout| #[trigger]
                        is_binout_of(b, maps@) && load_error(b.tree, b.files@) == Some(x@)
                },
            },
            forall|e: BinoutEditor| #[trigger]
                are_written_by(maps@, e) ==> (r matches Ok(o) && reopened(e@, o@)),
    {
        let none: Vec<String> = Vec::new();
        let ghost given = maps@;
        match Binout::from_files(none, maps) {
            Err(x) => {
                proof {
                    assert forall|e: BinoutEditor| !#[trigger] are_written_by(given, e) by {
                        lemma_no_fault(given, e, x@);
                    }
                }
                Err(x)
            },
            Ok(b) => {
                assert(is_binout_of(b, given));
                let r = BinoutEditor::from_binout(&b);
                proof {
                    if r is Ok {
                        assert(is_binout_of(b, given) && opened_as(b, r->Ok_0));
                    }
                    assert forall|e: BinoutEditor| #[trigger] are_written_by(given, e) implies (
                    r matches Ok(o) && reopened(e@, o@)) by {
                        lemma_written_family(given, e, b.files@);
                        match r {
                            Ok(o) => law_written_editor_opens(e, b, o),
                            Err(_) => law_written_editor_opens(e, b, e),
                        }
                    }
                }
                r
            },
        }
    }
}

} // verus!
