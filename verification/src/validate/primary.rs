//! The primary card of a keyword: the first one, which carries what identifies it.

use crate::deck::column::{Column, Table};
use crate::deck::file::{block_line, name_of, same_name, same_word, Block, ParsedFile};
use crate::deck::inplace::parse_schema;
use crate::deck::rows::is_table;
use crate::deck::schema::{is_field, Card, FieldType, Ref, Schema};
use crate::text::same_bytes;
use crate::validate::fields::line_of;
use crate::validate::names::{drop_suffix, ends_with, to_upper_text, upper_text};
use vstd::prelude::*;
use vstd::slice::slice_to_vec;

verus! {

/// The card of a heading.
pub open spec fn is_heading(c: Card) -> bool {
    c.fields@.len() == 1 && is_field(
        c.fields@[0],
        "TITLE"@,
        FieldType::Str,
        80,
        1,
        Ref::Nothing,
    )
}

/// The layout of a keyword's heading, where its name has one, and its primary card.
pub fn primary_schema(block_kw: &str, first: Card) -> (r: Schema)
    ensures
        r.keyword@ == upper_text(block_kw@),
        !r.repeat,
        ends_with(upper_text(block_kw@), "_TITLE"@) ==> r.cards@.len() == 2 && is_heading(
            r.cards@[0],
        ) && r.cards@[1] == first,
        !ends_with(upper_text(block_kw@), "_TITLE"@) ==> r.cards@ == seq![first],
{
    let name: String = to_upper_text(block_kw);
    let base: String = drop_suffix(name.as_str(), "_TITLE");
    let mut schema: Schema = Schema::new(name.as_str());
    let titled: bool = base.as_str().unicode_len() != name.as_str().unicode_len();
    proof {
        reveal_strlit("_TITLE");
        if ends_with(name@, "_TITLE"@) {
            assert(base@.len() == name@.len() - 6);
        }
    }
    if titled {
        let heading: Card = Card::new().str("TITLE", 80);
        assert(heading.fields@.last() == heading.fields@[0]);
        schema = schema.card(heading);
    }
    let all: Schema = schema.card(first).once();
    assert(!titled ==> all.cards@ =~= seq![first]);
    all
}

/// The value in a cell. A floating-point one is the bytes of its field.
#[derive(Debug)]
pub enum Cell {
    Int(i64),
    Float(Vec<u8>),
    Str(String),
}

/// The place of the first column with a name, whose case does not matter.
pub open spec fn column_place(cols: Seq<(String, Column)>, name: Seq<char>, i: int) -> bool {
    &&& 0 <= i < cols.len()
    &&& same_word(vstd::utf8::encode_utf8(cols[i].0@), vstd::utf8::encode_utf8(name))
    &&& forall|k: int|
        0 <= k < i ==> !same_word(
            vstd::utf8::encode_utf8((#[trigger] cols[k]).0@),
            vstd::utf8::encode_utf8(name),
        )
}

/// The cell holds value `row` of a column of one value to a row.
pub open spec fn is_cell(c: Column, row: int, cell: Option<Cell>) -> bool {
    if c.ncols() != 1 || row >= c.len() {
        cell is None
    } else {
        match c {
            Column::Int { data, .. } => cell == Some(Cell::Int(data@[row])),
            Column::Float { data, .. } => cell matches Some(Cell::Float(v)) && v@
                == data@[row]@,
            Column::Str { data, .. } => cell matches Some(Cell::Str(s)) && s@ == data@[row]@,
        }
    }
}

/// The value of a column at a row; the case of the column's name does not matter.
pub fn cell(table: &Table, field: &str, row: usize) -> (r: Option<Cell>)
    ensures
        forall|i: int| #[trigger]
            column_place(table.columns@, field@, i) ==> is_cell(
                table.columns@[i].1,
                row as int,
                r,
            ),
        (forall|i: int| !#[trigger] column_place(table.columns@, field@, i)) ==> r is None,
{
    let key: &[u8] = field.as_bytes();
    for i in 0..table.columns.len()
        invariant
            key@ == vstd::utf8::encode_utf8(field@),
            forall|k: int|
                0 <= k < i ==> !same_word(
                    vstd::utf8::encode_utf8((#[trigger] table.columns@[k]).0@),
                    key@,
                ),
    {
        if same_name(table.columns[i].0.as_str().as_bytes(), key) {
            proof {
                let s = table.columns@;
                assert(column_place(s, field@, i as int));
                assert forall|j: int| #[trigger] column_place(s, field@, j) implies j == i by {
                    if i < j {
                        assert(!same_word(vstd::utf8::encode_utf8(s[i as int].0@), key@));
                    }
                    if j < i {
                        assert(!same_word(vstd::utf8::encode_utf8(s[j].0@), key@));
                    }
                }
            }
            return value_at(&table.columns[i].1, row);
        }
    }
    None
}

fn value_at(c: &Column, row: usize) -> (r: Option<Cell>)
    ensures
        is_cell(*c, row as int, r),
{
    match c {
        Column::Int { data, ncols } => if *ncols == 1 && row < data.len() {
            Some(Cell::Int(data[row]))
        } else {
            None
        },
        Column::Float { data, ncols } => if *ncols == 1 && row < data.len() {
            Some(Cell::Float(slice_to_vec(data[row].as_slice())))
        } else {
            None
        },
        Column::Str { data, ncols } => if *ncols == 1 && row < data.len() {
            Some(Cell::Str(String::from_str(data[row].as_str())))
        } else {
            None
        },
    }
}

/// The lines of the first `n` blocks that have a name just so.
pub open spec fn lines_named(file: ParsedFile, exact: Seq<u8>, n: nat) -> Seq<usize>
    decreases n,
{
    if n == 0 {
        Seq::empty()
    } else {
        let rest = lines_named(file, exact, (n - 1) as nat);
        let b = file.blocks@[n - 1];
        if name_of(file.src@, b) == exact {
            rest.push(line_of(file, b))
        } else {
            rest
        }
    }
}

/// The primary cards of the blocks of a file that have a name just so, and the line of
/// each: row by row, as far as there are blocks.
pub fn primary_rows(file: &ParsedFile, exact: &[u8], schema: &Schema) -> (r: (Table, Vec<usize>))
    requires
        file.wf(),
        forall|j: int|
            0 <= j < file.blocks@.len() ==> (#[trigger] file.blocks@[j]).name_start < usize::MAX,
    ensures
        is_table(r.0, seq![*file], *schema),
        ({
            let all = lines_named(*file, exact@, file.blocks@.len());
            let n = r.0.row_count();
            r.1@ == if all.len() <= n {
                all
            } else {
                all.take(n as int)
            }
        }),
{
    let table: Table = parse_schema(file, schema);
    let mut lines: Vec<usize> = Vec::new();
    for j in 0..file.blocks.len()
        invariant
            file.wf(),
            forall|j: int|
                0 <= j < file.blocks@.len() ==> (#[trigger] file.blocks@[j]).name_start
                    < usize::MAX,
            lines@ == lines_named(*file, exact@, j as nat),
    {
        let b: Block = file.blocks[j];
        assert(file.blocks@[j as int].name_start < usize::MAX);
        if same_bytes(file.keyword_name(&b), exact) {
            lines.push(block_line(file, &b));
        }
    }
    let n: usize = table.rows();
    if n < lines.len() {
        lines.truncate(n);
    }
    (table, lines)
}

} // verus!
