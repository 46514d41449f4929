//! What a reader makes of a written LSDA file: its records, one by one.

use crate::le::{byte_of, le_bytes, lemma_le_at_of_bytes, lemma_pow256_values, pow256};
use crate::lsda::arena::{went, Cursor};
use crate::lsda::data::DataView;
use crate::lsda::diskfile::{command_at, value_at};
use crate::lsda::endian::uint_at;
use crate::lsda::load::lookup_name;
use crate::lsda::table::{declared, entry_of, records, EntryView, Sizes};
use crate::lsda::write::{
    cd_record, data_record, group_data, group_table, leaf_data, leaf_table, lsda_image, offset_of,
    path_bytes, preamble, record, symbol_table, variable_record, GroupView,
};
use crate::lsda::LsdaFault;
use vstd::prelude::*;

verus! {

/// The bytes `s` stand at position `pos` of `b`.
pub open spec fn stands(b: Seq<u8>, pos: int, s: Seq<u8>) -> bool {
    &&& 0 <= pos
    &&& pos + s.len() <= b.len()
    &&& b.subrange(pos, pos + s.len()) == s
}

pub proof fn lemma_stands_split(b: Seq<u8>, pos: int, s: Seq<u8>, t: Seq<u8>)
    requires
        stands(b, pos, s + t),
    ensures
        stands(b, pos, s),
        stands(b, pos + s.len(), t),
{
    let u = s + t;
    assert(b.subrange(pos, pos + s.len()) =~= u.take(s.len() as int)) by {
        assert(u.take(s.len() as int) =~= b.subrange(pos, pos + u.len()).take(s.len() as int));
    }
    assert(u.take(s.len() as int) =~= s);
    assert(b.subrange(pos + s.len(), pos + s.len() + t.len()) =~= b.subrange(
        pos,
        pos + u.len(),
    ).skip(s.len() as int));
    assert(u.skip(s.len() as int) =~= t);
}

/// The field sizes of a written file.
pub open spec fn written_sizes() -> Sizes {
    Sizes { length: 8, offset: 8, command: 1, type_: 1, le: true }
}

/// A number of eight bytes is read back.
pub proof fn lemma_word(b: Seq<u8>, pos: int, v: nat)
    requires
        stands(b, pos, le_bytes(v, 8)),
        v <= u64::MAX,
    ensures
        uint_at(b, pos, 8, true) == v,
        value_at(b, pos, 8, true) == Ok::<u64, LsdaFault>(v as u64),
{
    lemma_pow256_values();
    let s = le_bytes(v, 8);
    assert forall|j: int| 0 <= j < 8 implies #[trigger] b[pos + j] == byte_of(v, j as nat) by {
        assert(b.subrange(pos, pos + 8)[j] == s[j]);
    }
    lemma_le_at_of_bytes(b, pos, v, 8);
    vstd::arithmetic::div_mod::lemma_small_mod(v, pow256(8));
}

/// A record is read back: its length, its command, and what follows.
proof fn lemma_record(b: Seq<u8>, pos: int, rest: Seq<u8>)
    requires
        stands(b, pos, record(rest)),
        rest.len() >= 1,
        b.len() <= u64::MAX,
    ensures
        command_at(b, pos, 8, true) == Ok::<(u64, u8), LsdaFault>(
            ((8 + rest.len()) as u64, rest[0]),
        ),
        b.subrange(pos + 9, pos + 8 + rest.len()) == rest.skip(1),
{
    let w = le_bytes(8 + rest.len(), 8);
    lemma_stands_split(b, pos, w, rest);
    lemma_word(b, pos, 8 + rest.len());
    assert(b.subrange(pos + 8, pos + 8 + rest.len())[0] == rest[0]);
    assert(b.subrange(pos + 9, pos + 8 + rest.len()) =~= b.subrange(
        pos + 8,
        pos + 8 + rest.len(),
    ).skip(1));
}

/// A step to a directory.
proof fn lemma_cd_step(b: Seq<u8>, pos: int, c: Cursor, path: Seq<char>)
    requires
        stands(b, pos, cd_record(path)),
        b.len() <= u64::MAX,
        lookup_name(path_bytes(path)) == path_bytes(path),
    ensures
        records(b, written_sizes(), pos, c, 0) == records(
            b,
            written_sizes(),
            pos + cd_record(path).len(),
            went(c, path_bytes(path)),
            0,
        ),
{
    let rest = seq![2u8] + path_bytes(path);
    lemma_record(b, pos, rest);
    assert(rest.skip(1) =~= path_bytes(path));
    assert(b.subrange(pos + 9, pos + 9 + (rest.len() - 1)) == path_bytes(path));
}

/// The fields of a declaration.
pub open spec fn entry_for(name: Seq<u8>, d: DataView, offset: nat) -> EntryView {
    EntryView { name, type_: d.type_code(), offset: offset as u64, length: d.count() as u64 }
}

/// A declaration is read back.
proof fn lemma_entry(name: Seq<u8>, d: DataView, offset: nat)
    requires
        offset <= u64::MAX,
        d.count() <= u64::MAX,
    ensures
        ({
            let data = name + seq![d.type_code()] + le_bytes(offset, 8) + le_bytes(d.count(), 8);
            entry_of(data, 17, 1, 8, 8, true) == Ok::<EntryView, LsdaFault>(
                entry_for(name, d, offset),
            )
        }),
{
    let x = le_bytes(offset, 8);
    let y = le_bytes(d.count(), 8);
    let data = name + seq![d.type_code()] + x + y;
    let n = name.len() as int;
    assert(data.take(n) =~= name);
    assert(data[n] == d.type_code());
    let p = data.skip(n + 1);
    let q = data.skip(n + 9);
    assert(p =~= x + y);
    assert(q =~= y);
    assert(p.subrange(0, 8) =~= x);
    assert(q.subrange(0, 8) =~= y);
    lemma_word(p, 0, offset);
    lemma_word(q, 0, d.count());
}

/// A step that declares a dataset.
proof fn lemma_variable_step(
    b: Seq<u8>,
    pos: int,
    c: Cursor,
    name: Seq<u8>,
    d: DataView,
    offset: nat,
)
    requires
        stands(b, pos, variable_record(name, d, offset)),
        b.len() <= u64::MAX,
        offset <= u64::MAX,
        d.count() <= u64::MAX,
    ensures
        records(b, written_sizes(), pos, c, 0) == records(
            b,
            written_sizes(),
            pos + variable_record(name, d, offset).len(),
            declared(c, entry_for(name, d, offset), 0),
            0,
        ),
{
    let data = name + seq![d.type_code()] + le_bytes(offset, 8) + le_bytes(d.count(), 8);
    let rest = seq![4u8] + name + seq![d.type_code()] + le_bytes(offset, 8) + le_bytes(
        d.count(),
        8,
    );
    assert(rest =~= seq![4u8] + data);
    lemma_record(b, pos, rest);
    assert(rest.skip(1) =~= data);
    lemma_entry(name, d, offset);
    assert(b.subrange(pos + 9, pos + 9 + (rest.len() - 1)) == data);
}

/// The first `j` datasets of group `i` declared.
pub open spec fn declared_leaves(c: Cursor, g: Seq<GroupView>, i: int, j: nat) -> Cursor
    decreases j,
{
    if j == 0 {
        c
    } else {
        let x = g[i].leaves[j - 1];
        declared(
            declared_leaves(c, g, i, (j - 1) as nat),
            entry_for(x.0, x.1, offset_of(g, i, j - 1)),
            0,
        )
    }
}

/// Group `i` read.
pub open spec fn group_read(c: Cursor, g: Seq<GroupView>, i: int) -> Cursor {
    declared_leaves(went(c, path_bytes(g[i].path)), g, i, g[i].leaves.len())
}

/// The groups from `lo` to below `hi` read.
pub open spec fn groups_read(c: Cursor, g: Seq<GroupView>, lo: int, hi: int) -> Cursor
    decreases hi - lo,
{
    if hi <= lo {
        c
    } else {
        group_read(groups_read(c, g, lo, hi - 1), g, hi - 1)
    }
}

/// The numbers in the records fit their fields, and the texts of paths are read
/// back.
pub open spec fn fields_fit(g: Seq<GroupView>) -> bool {
    &&& forall|i: int|
        0 <= i < g.len() ==> lookup_name(path_bytes((#[trigger] g[i]).path)) == path_bytes(
            g[i].path,
        )
    &&& forall|i: int, j: int|
        0 <= i < g.len() && 0 <= j < g[i].leaves.len() ==> #[trigger] offset_of(g, i, j)
            <= u64::MAX && g[i].leaves[j].1.count() <= u64::MAX
}

proof fn lemma_leaves_read(b: Seq<u8>, pos: int, c: Cursor, g: Seq<GroupView>, i: int, j: nat)
    requires
        stands(b, pos, leaf_table(g, i, j)),
        b.len() <= u64::MAX,
        fields_fit(g),
        0 <= i < g.len(),
        j <= g[i].leaves.len(),
    ensures
        records(b, written_sizes(), pos, c, 0) == records(
            b,
            written_sizes(),
            pos + leaf_table(g, i, j).len(),
            declared_leaves(c, g, i, j),
            0,
        ),
    decreases j,
{
    if j > 0 {
        let k = (j - 1) as nat;
        let x = g[i].leaves[k as int];
        let r = variable_record(x.0, x.1, offset_of(g, i, k as int));
        lemma_stands_split(b, pos, leaf_table(g, i, k), r);
        lemma_leaves_read(b, pos, c, g, i, k);
        lemma_variable_step(
            b,
            pos + leaf_table(g, i, k).len(),
            declared_leaves(c, g, i, k),
            x.0,
            x.1,
            offset_of(g, i, k as int),
        );
    }
}

proof fn lemma_groups_read(b: Seq<u8>, pos: int, c: Cursor, g: Seq<GroupView>, i: nat)
    requires
        stands(b, pos, group_table(g, i)),
        b.len() <= u64::MAX,
        fields_fit(g),
        i <= g.len(),
    ensures
        records(b, written_sizes(), pos, c, 0) == records(
            b,
            written_sizes(),
            pos + group_table(g, i).len(),
            groups_read(c, g, 0, i as int),
            0,
        ),
    decreases i,
{
    if i > 0 {
        let k = (i - 1) as nat;
        let s = group_table(g, k);
        let t = cd_record(g[k as int].path);
        let u = leaf_table(g, k as int, g[k as int].leaves.len());
        lemma_stands_split(b, pos, s + t, u);
        lemma_stands_split(b, pos, s, t);
        lemma_groups_read(b, pos, c, g, k);
        let d = groups_read(c, g, 0, k as int);
        lemma_cd_step(b, pos + s.len(), d, g[k as int].path);
        lemma_leaves_read(
            b,
            pos + s.len() + t.len(),
            went(d, path_bytes(g[k as int].path)),
            g,
            k as int,
            g[k as int].leaves.len(),
        );
    }
}

/// The data of the groups in front stands in front.
proof fn lemma_group_data_at(g: Seq<GroupView>, i: int, n: int)
    requires
        0 <= i < n <= g.len(),
    ensures
        stands(
            group_data(g.take(n)),
            (group_data(g.take(i)).len() + cd_record(g[i].path).len()) as int,
            leaf_data(g[i].leaves),
        ),
    decreases n,
{
    let x = group_data(g.take(n - 1));
    let y = cd_record(g[n - 1].path);
    let z = leaf_data(g[n - 1].leaves);
    assert(g.take(n).drop_last() =~= g.take(n - 1));
    assert(g.take(n).last() == g[n - 1]);
    let all = group_data(g.take(n));
    assert(all == x + y + z);
    if i == n - 1 {
        assert(all.subrange((x.len() + y.len()) as int, (x.len() + y.len() + z.len()) as int)
            =~= z);
    } else {
        lemma_group_data_at(g, i, n - 1);
        let pos = (group_data(g.take(i)).len() + cd_record(g[i].path).len()) as int;
        let l = leaf_data(g[i].leaves);
        assert(all.subrange(pos, pos + l.len()) =~= x.subrange(pos, pos + l.len()));
    }
}

proof fn lemma_leaf_data_at(s: Seq<(Seq<u8>, DataView)>, j: int, n: int)
    requires
        0 <= j < n <= s.len(),
    ensures
        stands(
            leaf_data(s.take(n)),
            leaf_data(s.take(j)).len() as int,
            data_record(s[j].0, s[j].1),
        ),
    decreases n,
{
    let x = leaf_data(s.take(n - 1));
    let y = data_record(s[n - 1].0, s[n - 1].1);
    assert(s.take(n).drop_last() =~= s.take(n - 1));
    assert(s.take(n).last() == s[n - 1]);
    let all = leaf_data(s.take(n));
    assert(all == x + y);
    if j == n - 1 {
        assert(all.subrange(x.len() as int, (x.len() + y.len()) as int) =~= y);
    } else {
        lemma_leaf_data_at(s, j, n - 1);
        let pos = leaf_data(s.take(j)).len() as int;
        let r = data_record(s[j].0, s[j].1);
        assert(all.subrange(pos, pos + r.len()) =~= x.subrange(pos, pos + r.len()));
    }
}

pub proof fn lemma_stands_in(b: Seq<u8>, pos: int, s: Seq<u8>, at: int, t: Seq<u8>)
    requires
        stands(b, pos, s),
        stands(s, at, t),
    ensures
        stands(b, pos + at, t),
{
    assert(b.subrange(pos + at, pos + at + t.len()) =~= b.subrange(pos, pos + s.len()).subrange(
        at,
        at + t.len(),
    ));
}

/// The values of a dataset stand behind the header and the name of its record.
pub proof fn lemma_values_stand(g: Seq<GroupView>, i: int, j: int)
    requires
        0 <= i < g.len(),
        0 <= j < g[i].leaves.len(),
    ensures
        ({
            let x = g[i].leaves[j];
            let at = offset_of(g, i, j);
            &&& stands(lsda_image(g), (at + 11 + x.0.len()) as int, x.1.bytes())
            &&& at <= lsda_image(g).len()
        }),
{
    let b = lsda_image(g);
    let p = preamble(25 + group_data(g).len());
    let d = group_data(g);
    assert(p.len() == 25);
    assert(b.subrange(25, (25 + d.len()) as int) =~= d);
    assert(stands(b, 25, d));
    let s = g[i].leaves;
    let x = s[j];
    assert(g.take(g.len() as int) =~= g);
    assert(s.take(s.len() as int) =~= s);
    lemma_group_data_at(g, i, g.len() as int);
    let a1 = (group_data(g.take(i)).len() + cd_record(g[i].path).len()) as int;
    lemma_stands_in(b, 25, d, a1, leaf_data(s));
    lemma_leaf_data_at(s, j, s.len() as int);
    let a2 = leaf_data(s.take(j)).len() as int;
    let r = data_record(x.0, x.1);
    lemma_stands_in(b, 25 + a1, leaf_data(s), a2, r);
    let head = seq![3u8, x.1.type_code(), (x.0.len() % 256) as u8];
    let rest = head + x.0 + x.1.bytes();
    let w = le_bytes(8 + rest.len(), 8);
    assert(r == w + rest);
    assert(r.subrange((11 + x.0.len()) as int, (11 + x.0.len() + x.1.bytes().len()) as int)
        =~= x.1.bytes());
    lemma_stands_in(b, 25 + a1 + a2, r, (11 + x.0.len()) as int, x.1.bytes());
}

/// The whole symbol table of a written file is read.
pub proof fn lemma_table_read(g: Seq<GroupView>, c: Cursor)
    requires
        lsda_image(g).len() <= u64::MAX,
        fields_fit(g),
    ensures
        crate::lsda::table::file_tables(lsda_image(g), written_sizes(), c, 0) == Ok::<
            Cursor,
            LsdaFault,
        >(groups_read(c, g, 0, g.len() as int)),
{
    let b = lsda_image(g);
    let h = written_sizes();
    let d = group_data(g);
    let start = 25 + d.len();
    let p = preamble(start);
    assert(p.len() == 25);
    // the pointer to the table
    assert(b.subrange(17, 25) =~= le_bytes(start, 8));
    lemma_word(b, 17, start);
    // the table
    let t = group_table(g, g.len());
    let a = le_bytes(26 + t.len(), 8);
    let e = le_bytes(17, 8);
    let z = le_bytes(0, 8);
    let whole = symbol_table(g);
    assert(whole == a + seq![5u8] + t + e + seq![6u8] + z);
    assert(b.subrange(start as int, (start + whole.len()) as int) =~= whole);
    assert(stands(b, start as int, whole));
    lemma_stands_split(b, start as int, a + seq![5u8] + t + e + seq![6u8], z);
    lemma_stands_split(b, start as int, a + seq![5u8] + t + e, seq![6u8]);
    lemma_stands_split(b, start as int, a + seq![5u8] + t, e);
    lemma_stands_split(b, start as int, a + seq![5u8], t);
    lemma_stands_split(b, start as int, a, seq![5u8]);
    lemma_word(b, start as int, 26 + t.len());
    assert(b.subrange((start + 8) as int, (start + 9) as int)[0] == 5);
    assert(command_at(b, start as int, 8, true) == Ok::<(u64, u8), LsdaFault>(
        ((26 + t.len()) as u64, 5u8),
    ));
    let first = start + 9;
    lemma_groups_read(b, first as int, c, g, g.len());
    let all = groups_read(c, g, 0, g.len() as int);
    // the end of the table
    let last = (first + t.len()) as int;
    lemma_word(b, last, 17);
    assert(b.subrange(last + 8, last + 9)[0] == 6);
    assert(command_at(b, last, 8, true) == Ok::<(u64, u8), LsdaFault>((17u64, 6u8)));
    assert(records(b, h, last, all, 0) == Ok::<(Cursor, int), LsdaFault>((all, last + 9)));
    lemma_word(b, last + 9, 0);
    reveal_with_fuel(crate::lsda::table::tables, 3);
    assert(b.len() >= 2);
}

} // verus!
