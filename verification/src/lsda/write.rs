//! The LSDA file of a tree of datasets.
//!
//! ```text
//! [8-byte header: 08 08 08 01 01 01 00 00]      (lengths and offsets of 8 bytes, LE)
//! [len=17][cmd=7][pointer to the symbol table]
//! data, repeated:
//!     [len][cmd=2][absolute path of a directory]
//!     [len][cmd=3][type][name length][name][values]
//! symbol table:
//!     [len][cmd=5]
//!     [len][cmd=2][absolute path of a directory]
//!     [len][cmd=4][name][type][offset of the data record][number of values]
//!     [len=17][cmd=6][pointer to the next symbol table: 0]
//! ```

use crate::le::{le_bytes, push_u64};
use crate::lsda::data::{Data, DataView};
use crate::lsda::edit::BinoutEditor;
use crate::lsda::tree::SymNode;
use crate::text::{decode_lossy, text_of, same_text};
use vstd::prelude::*;

verus! {

/// The bytes of a path.
pub open spec fn path_bytes(path: Seq<char>) -> Seq<u8> {
    vstd::utf8::encode_utf8(path)
}

/// A record: its length, which counts all of it, and what follows.
pub open spec fn record(rest: Seq<u8>) -> Seq<u8> {
    le_bytes(8 + rest.len(), 8) + rest
}

/// The record that goes to a directory.
pub open spec fn cd_record(path: Seq<char>) -> Seq<u8> {
    record(seq![2u8] + path_bytes(path))
}

/// The record that holds the values of a dataset. The length of the name is held
/// to one byte; the symbol table tells it in full.
pub open spec fn data_record(name: Seq<u8>, d: DataView) -> Seq<u8> {
    record(seq![3u8, d.type_code(), (name.len() % 256) as u8] + name + d.bytes())
}

/// The record that declares a dataset whose data record is at `offset`.
pub open spec fn variable_record(name: Seq<u8>, d: DataView, offset: nat) -> Seq<u8> {
    record(
        seq![4u8] + name + seq![d.type_code()] + le_bytes(offset, 8) + le_bytes(d.count(), 8),
    )
}

/// Datasets that stand in one directory.
pub struct GroupView {
    pub path: Seq<char>,
    pub leaves: Seq<(Seq<u8>, DataView)>,
}

/// The data records of datasets.
pub open spec fn leaf_data(s: Seq<(Seq<u8>, DataView)>) -> Seq<u8>
    decreases s.len(),
{
    if s.len() == 0 {
        Seq::empty()
    } else {
        leaf_data(s.drop_last()) + data_record(s.last().0, s.last().1)
    }
}

/// The data region.
pub open spec fn group_data(g: Seq<GroupView>) -> Seq<u8>
    decreases g.len(),
{
    if g.len() == 0 {
        Seq::empty()
    } else {
        group_data(g.drop_last()) + cd_record(g.last().path) + leaf_data(g.last().leaves)
    }
}

/// Where the data record of dataset `j` of group `i` is.
pub open spec fn offset_of(g: Seq<GroupView>, i: int, j: int) -> nat {
    25 + group_data(g.take(i)).len() + cd_record(g[i].path).len() + leaf_data(
        g[i].leaves.take(j),
    ).len()
}

/// The declarations of the first `j` datasets of group `i`.
pub open spec fn leaf_table(g: Seq<GroupView>, i: int, j: nat) -> Seq<u8>
    decreases j,
{
    if j == 0 {
        Seq::empty()
    } else {
        let x = g[i].leaves[j - 1];
        leaf_table(g, i, (j - 1) as nat) + variable_record(x.0, x.1, offset_of(g, i, j - 1))
    }
}

/// The declarations of the first `i` groups.
pub open spec fn group_table(g: Seq<GroupView>, i: nat) -> Seq<u8>
    decreases i,
{
    if i == 0 {
        Seq::empty()
    } else {
        group_table(g, (i - 1) as nat) + cd_record(g[i - 1].path) + leaf_table(
            g,
            i - 1,
            g[i - 1].leaves.len(),
        )
    }
}

/// What comes in front of the data.
pub open spec fn preamble(table: nat) -> Seq<u8> {
    seq![8u8, 8, 8, 1, 1, 1, 0, 0] + le_bytes(17, 8) + seq![7u8] + le_bytes(table, 8)
}

/// The symbol table.
pub open spec fn symbol_table(g: Seq<GroupView>) -> Seq<u8> {
    let t = group_table(g, g.len());
    le_bytes(26 + t.len(), 8) + seq![5u8] + t + le_bytes(17, 8) + seq![6u8] + le_bytes(0, 8)
}

/// The file of groups of datasets.
pub open spec fn lsda_image(g: Seq<GroupView>) -> Seq<u8> {
    preamble(25 + group_data(g).len()) + group_data(g) + symbol_table(g)
}

/// The path of the directory `name` in the directory at `path`.
pub open spec fn joined(path: Seq<char>, name: Seq<u8>) -> Seq<char> {
    if path == "/"@ {
        "/"@ + text_of(name)
    } else {
        path + "/"@ + text_of(name)
    }
}

/// The datasets among the first `n` children of a directory.
pub open spec fn leaves_of(m: Seq<(Vec<u8>, SymNode<Data>)>, n: nat) -> Seq<(Seq<u8>, DataView)>
    decreases n,
{
    if n == 0 {
        Seq::empty()
    } else {
        let rest = leaves_of(m, (n - 1) as nat);
        match m[n - 1].1 {
            SymNode::Leaf(d) => rest.push((m[n - 1].0@, d@)),
            SymNode::Dir(_) => rest,
        }
    }
}

/// The groups of a tree: for every directory that holds datasets, before those of
/// the directories in it.
pub open spec fn groups_of(node: SymNode<Data>, path: Seq<char>) -> Seq<GroupView>
    decreases node, 0nat,
{
    match node {
        SymNode::Leaf(_) => Seq::empty(),
        SymNode::Dir(m) => {
            let leaves = leaves_of(m@, m@.len());
            let own: Seq<GroupView> = if leaves.len() > 0 {
                seq![GroupView { path, leaves }]
            } else {
                Seq::empty()
            };
            own + groups_below(m, path, m@.len())
        },
    }
}

/// The groups of the first `n` children of a directory.
pub open spec fn groups_below(
    m: Vec<(Vec<u8>, SymNode<Data>)>,
    path: Seq<char>,
    n: nat,
) -> Seq<GroupView>
    decreases m, n,
{
    if n == 0 || n > m@.len() {
        Seq::empty()
    } else {
        groups_below(m, path, (n - 1) as nat) + groups_of(m@[n - 1].1, joined(path, m@[n - 1].0@))
    }
}

impl BinoutEditor {
    /// The groups of the tree.
    pub open spec fn groups(self) -> Seq<GroupView> {
        groups_of(self.root, "/"@)
    }

    /// The bytes of the file.
    pub open spec fn image(self) -> Seq<u8> {
        lsda_image(self.groups())
    }
}

/// A directory that holds datasets, with these.
pub struct DirGroup<'a> {
    pub path: String,
    pub leaves: Vec<(&'a [u8], &'a Data)>,
}

pub open spec fn leaf_views(s: Seq<(&[u8], &Data)>) -> Seq<(Seq<u8>, DataView)> {
    Seq::new(s.len(), |i: int| (s[i].0@, s[i].1@))
}

impl View for DirGroup<'_> {
    type V = GroupView;

    open spec fn view(&self) -> GroupView {
        GroupView { path: self.path@, leaves: leaf_views(self.leaves@) }
    }
}

pub open spec fn group_views(s: Seq<DirGroup>) -> Seq<GroupView> {
    Seq::new(s.len(), |i: int| s[i]@)
}

/// Adds the groups of a tree.
fn collect<'a>(node: &'a SymNode<Data>, path: String, out: &mut Vec<DirGroup<'a>>)
    ensures
        group_views(final(out)@) == group_views(old(out)@) + groups_of(*node, path@),
    decreases *node,
{
    let ghost before = group_views(out@);
    match node {
        SymNode::Leaf(_) => {
            assert(group_views(out@) =~= before + groups_of(*node, path@));
        },
        SymNode::Dir(m) => {
            let mut leaves: Vec<(&'a [u8], &'a Data)> = Vec::new();
            assert(leaf_views(leaves@) =~= leaves_of(m@, 0));
            for i in 0..m.len()
                invariant
                    leaf_views(leaves@) == leaves_of(m@, i as nat),
            {
                if let SymNode::Leaf(d) = &m[i].1 {
                    let ghost had = leaves@;
                    leaves.push((m[i].0.as_slice(), d));
                    assert(leaf_views(leaves@) =~= leaf_views(had).push((m@[i as int].0@, d@)));
                }
            }
            let ghost own: Seq<GroupView> = if leaves@.len() > 0 {
                seq![GroupView { path: path@, leaves: leaf_views(leaves@) }]
            } else {
                Seq::empty()
            };
            let ghost at = path@;
            let top: bool = same_text(path.as_str(), "/");
            let mut base: String = String::from_str(if top { "" } else { path.as_str() });
            base.append("/");
            proof {
                reveal_strlit("");
                assert(top ==> base@ =~= "/"@);
                assert(!top ==> base@ =~= at + "/"@);
            }
            if leaves.len() > 0 {
                out.push(DirGroup { path, leaves });
            }
            assert(group_views(out@) =~= before + own);
            assert(before + own =~= before + own + groups_below(*m, at, 0));
            for i in 0..m.len()
                invariant
                    node matches SymNode::Dir(x) && *x == *m,
                    top == (at == "/"@),
                    top ==> base@ == "/"@,
                    !top ==> base@ == at + "/"@,
                    group_views(out@) == before + own + groups_below(*m, at, i as nat),
            {
                let mut sub: String = String::from_str(base.as_str());
                let name: String = decode_lossy(m[i].0.as_slice());
                sub.append(name.as_str());
                assert(sub@ == joined(at, m@[i as int].0@));
                assert(decreases_to!(*node => m@[i as int].1));
                collect(&m[i].1, sub, out);
                assert(before + own + groups_below(*m, at, i as nat) + groups_of(
                    m@[i as int].1,
                    sub@,
                ) =~= before + own + groups_below(*m, at, (i + 1) as nat));
            }
            assert(before + own + groups_below(*m, at, m@.len()) =~= before + groups_of(
                *node,
                at,
            ));
        },
    }
}

/// Appends a number of eight bytes.
pub fn put_u64(buf: &mut Vec<u8>, v: u64)
    ensures
        final(buf)@ == old(buf)@ + le_bytes(v as nat, 8),
{
    push_u64(buf, v);
}

/// Writes a number of eight bytes at position `pos`.
pub fn set_u64(buf: &mut Vec<u8>, pos: usize, v: u64)
    requires
        pos + 8 <= old(buf)@.len(),
    ensures
        final(buf)@ == old(buf)@.take(pos as int) + le_bytes(v as nat, 8) + old(buf)@.skip(pos + 8),
{
    let ghost start = buf@;
    let n: usize = buf.len();
    let mut word: Vec<u8> = Vec::new();
    put_u64(&mut word, v);
    assert(word@ =~= le_bytes(v as nat, 8));
    for j in 0..8usize
        invariant
            pos + 8 <= n,
            n == buf@.len(),
            buf@.len() == start.len(),
            word@.len() == 8,
            forall|k: int| pos <= k < pos + j ==> buf@[k] == word@[k - pos],
            forall|k: int| 0 <= k < pos ==> buf@[k] == start[k],
            forall|k: int| pos + j <= k < start.len() ==> buf@[k] == start[k],
    {
        buf[pos + j] = word[j];
    }
    assert(buf@ =~= start.take(pos as int) + le_bytes(v as nat, 8) + start.skip(pos + 8));
}

/// Completes the record that begins at `start` with its length.
fn close_record(buf: &mut Vec<u8>, start: usize)
    requires
        start + 8 <= old(buf)@.len(),
    ensures
        final(buf)@ == old(buf)@.take(start as int) + record(old(buf)@.skip(start + 8)),
{
    let n: u64 = (buf.len() - start) as u64;
    let ghost b = buf@;
    set_u64(buf, start, n);
    assert(buf@ =~= b.take(start as int) + record(b.skip(start + 8)));
}

/// Appends the record that goes to a directory.
pub fn write_cd(buf: &mut Vec<u8>, path: &str)
    ensures
        final(buf)@ == old(buf)@ + cd_record(path@),
{
    let start: usize = buf.len();
    let ghost b = buf@;
    put_u64(buf, 0);
    buf.push(2);
    buf.extend_from_slice(path.as_bytes());
    let ghost full = buf@;
    assert(full.take(start as int) =~= b);
    assert(full.skip(start + 8) =~= seq![2u8] + path_bytes(path@));
    close_record(buf, start);
}

fn write_data(buf: &mut Vec<u8>, name: &[u8], data: &Data)
    ensures
        final(buf)@ == old(buf)@ + data_record(name@, data@),
{
    let start: usize = buf.len();
    let ghost b = buf@;
    let bytes: Vec<u8> = data.to_le_bytes();
    put_u64(buf, 0);
    buf.push(3);
    buf.push(data.type_code());
    buf.push((name.len() % 256) as u8);
    buf.extend_from_slice(name);
    buf.extend_from_slice(bytes.as_slice());
    let ghost full = buf@;
    assert(full.take(start as int) =~= b);
    assert(full.skip(start + 8) =~= seq![
        3u8,
        data@.type_code(),
        (name@.len() % 256) as u8,
    ] + name@ + bytes@);
    close_record(buf, start);
}

fn write_variable(buf: &mut Vec<u8>, name: &[u8], data: &Data, offset: u64)
    ensures
        final(buf)@ == old(buf)@ + variable_record(name@, data@, offset as nat),
{
    let start: usize = buf.len();
    let ghost b = buf@;
    put_u64(buf, 0);
    buf.push(4);
    buf.extend_from_slice(name);
    buf.push(data.type_code());
    put_u64(buf, offset);
    put_u64(buf, data.count() as u64);
    let ghost full = buf@;
    assert(full.take(start as int) =~= b);
    assert(full.skip(start + 8) =~= seq![4u8] + name@ + seq![data@.type_code()] + le_bytes(
        offset as nat,
        8,
    ) + le_bytes(data@.count(), 8));
    close_record(buf, start);
}

/// Appends the records of one group, and says where its data records are.
fn write_group(buf: &mut Vec<u8>, g: &DirGroup) -> (r: Vec<u64>)
    ensures
        final(buf)@ == old(buf)@ + cd_record(g@.path) + leaf_data(g@.leaves),
        r@.len() == g@.leaves.len(),
        forall|j: int|
            0 <= j < r@.len() ==> #[trigger] r@[j] == old(buf)@.len() + cd_record(g@.path).len()
                + leaf_data(g@.leaves.take(j)).len(),
{
    let ghost b = buf@;
    let ghost all = g@.leaves;
    write_cd(buf, g.path.as_str());
    let mut offs: Vec<u64> = Vec::new();
    let ghost base = buf@;
    assert(all.take(0) =~= Seq::<(Seq<u8>, DataView)>::empty());
    assert(buf@ =~= base + leaf_data(all.take(0)));
    for j in 0..g.leaves.len()
        invariant
            all == g@.leaves,
            base == b + cd_record(g@.path),
            buf@ == base + leaf_data(all.take(j as int)),
            offs@.len() == j,
            forall|k: int|
                0 <= k < j ==> #[trigger] offs@[k] == base.len() + leaf_data(all.take(k)).len(),
    {
        offs.push(buf.len() as u64);
        let (name, data) = g.leaves[j];
        assert(all[j as int] == (name@, data@));
        write_data(buf, name, data);
        assert(all.take(j + 1).drop_last() =~= all.take(j as int));
        assert(all.take(j + 1).last() == all[j as int]);
        assert(buf@ =~= base + leaf_data(all.take(j + 1)));
    }
    assert(all.take(all.len() as int) =~= all);
    offs
}

/// Appends the declarations of one group.
fn write_declarations(
    buf: &mut Vec<u8>,
    g: &DirGroup,
    offs: &Vec<u64>,
    Ghost(gs): Ghost<Seq<GroupView>>,
    Ghost(i): Ghost<int>,
)
    requires
        0 <= i < gs.len(),
        gs[i] == g@,
        offs@.len() == g@.leaves.len(),
        forall|j: int| 0 <= j < offs@.len() ==> #[trigger] offs@[j] == offset_of(gs, i, j),
    ensures
        final(buf)@ == old(buf)@ + cd_record(g@.path) + leaf_table(gs, i, g@.leaves.len()),
{
    write_cd(buf, g.path.as_str());
    let ghost base = buf@;
    assert(buf@ =~= base + leaf_table(gs, i, 0));
    for j in 0..g.leaves.len()
        invariant
            0 <= i < gs.len(),
            gs[i] == g@,
            offs@.len() == g@.leaves.len(),
            forall|k: int| 0 <= k < offs@.len() ==> #[trigger] offs@[k] == offset_of(gs, i, k),
            buf@ == base + leaf_table(gs, i, j as nat),
    {
        let (name, data) = g.leaves[j];
        assert(gs[i].leaves[j as int] == (name@, data@));
        assert(offs@[j as int] == offset_of(gs, i, j as int));
        write_variable(buf, name, data, offs[j]);
        assert(buf@ =~= base + leaf_table(gs, i, (j + 1) as nat));
    }
}

impl BinoutEditor {
    /// The bytes of the whole tree as one LSDA file.
    pub fn to_bytes(&self) -> (r: Vec<u8>)
        ensures
            r@ == self.image(),
    {
        let mut groups: Vec<DirGroup> = Vec::new();
        collect(&self.root, String::from_str("/"), &mut groups);
        let ghost gs = self.groups();
        assert(group_views(groups@) =~= gs);

        let mut buf: Vec<u8> = Vec::new();
        buf.push(8);
        buf.push(8);
        buf.push(8);
        buf.push(1);
        buf.push(1);
        buf.push(1);
        buf.push(0);
        buf.push(0);
        put_u64(&mut buf, 17);
        buf.push(7);
        put_u64(&mut buf, 0);
        assert(buf@ =~= preamble(0));

        let mut offsets: Vec<Vec<u64>> = Vec::new();
        assert(gs.take(0) =~= Seq::<GroupView>::empty());
        assert(buf@ =~= preamble(0) + group_data(gs.take(0)));
        for i in 0..groups.len()
            invariant
                gs == group_views(groups@),
                buf@ == preamble(0) + group_data(gs.take(i as int)),
                offsets@.len() == i,
                forall|k: int|
                    0 <= k < i ==> (#[trigger] offsets@[k])@.len() == gs[k].leaves.len(),
                forall|k: int, j: int|
                    0 <= k < i && 0 <= j < gs[k].leaves.len() ==> #[trigger] offsets@[k]@[j]
                        == offset_of(gs, k, j),
        {
            assert(gs[i as int] == groups@[i as int]@);
            assert(preamble(0).len() == 25);
            let offs: Vec<u64> = write_group(&mut buf, &groups[i]);
            assert forall|j: int| 0 <= j < gs[i as int].leaves.len() implies #[trigger] offs@[j]
                == offset_of(gs, i as int, j) by {}
            offsets.push(offs);
            assert(gs.take(i + 1).drop_last() =~= gs.take(i as int));
            assert(gs.take(i + 1).last() == gs[i as int]);
            assert(buf@ =~= preamble(0) + group_data(gs.take(i + 1)));
        }
        assert(gs.take(gs.len() as int) =~= gs);

        let table: usize = buf.len();
        let ghost data = buf@;
        put_u64(&mut buf, 0);
        buf.push(5);
        let ghost base = buf@;
        assert(buf@ =~= base + group_table(gs, 0));
        for i in 0..groups.len()
            invariant
                gs == group_views(groups@),
                buf@ == base + group_table(gs, i as nat),
                offsets@.len() == groups@.len(),
                forall|k: int|
                    0 <= k < offsets@.len() ==> (#[trigger] offsets@[k])@.len()
                        == gs[k].leaves.len(),
                forall|k: int, j: int|
                    0 <= k < offsets@.len() && 0 <= j < gs[k].leaves.len()
                        ==> #[trigger] offsets@[k]@[j] == offset_of(gs, k, j),
        {
            assert(gs[i as int] == groups@[i as int]@);
            assert(offsets@[i as int]@.len() == gs[i as int].leaves.len());
            write_declarations(&mut buf, &groups[i], &offsets[i], Ghost(gs), Ghost(i as int));
            assert(buf@ =~= base + group_table(gs, (i + 1) as nat));
        }
        put_u64(&mut buf, 17);
        buf.push(6);
        put_u64(&mut buf, 0);
        let ghost t = group_table(gs, gs.len());
        assert(buf@ =~= data + (le_bytes(0, 8) + seq![5u8] + t + le_bytes(17, 8) + seq![6u8]
            + le_bytes(0, 8)));

        let begin_len: u64 = (buf.len() - table) as u64;
        assert(begin_len == 26 + t.len());
        set_u64(&mut buf, table, begin_len);
        assert(buf@ =~= data + symbol_table(gs));
        set_u64(&mut buf, 17, table as u64);
        assert(buf@ =~= lsda_image(gs));
        buf
    }
}

} // verus!
