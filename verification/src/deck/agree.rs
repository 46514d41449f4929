//! Tables of the same rows agree.

use crate::deck::column::{Column, Table};
use crate::deck::file::ParsedFile;
use crate::deck::rows::{field_cell, fields_before, is_column, is_table, schema_rows, Line};
use crate::deck::schema::{FieldSpec, Schema};
use vstd::prelude::*;

verus! {

/// The columns hold the same values.
pub open spec fn same_values(c: Column, d: Column) -> bool {
    &&& c.ncols() == d.ncols()
    &&& c.len() == d.len()
    &&& match (c, d) {
        (Column::Int { data: a, .. }, Column::Int { data: b, .. }) => a@ == b@,
        (Column::Float { data: a, .. }, Column::Float { data: b, .. }) => forall|i: int|
            0 <= i < a@.len() ==> (#[trigger] a@[i])@ == b@[i]@,
        (Column::Str { data: a, .. }, Column::Str { data: b, .. }) => forall|i: int|
            0 <= i < a@.len() ==> (#[trigger] a@[i])@ == b@[i]@,
        _ => false,
    }
}

/// Columns of the same rows hold the same values.
proof fn lemma_columns_agree(
    c: Column,
    d: Column,
    fields: Seq<FieldSpec>,
    b: int,
    rows: Seq<Line>,
)
    requires
        is_column(c, fields, b, rows),
        is_column(d, fields, b, rows),
    ensures
        same_values(c, d),
{
    let w = fields[b].count as int;
    assert forall|i: int| 0 <= i < c.len() implies #[trigger] holds_alike(c, d, i) by {
        assert(w > 0) by {
            if w == 0 {
                assert(rows.len() * 0 == 0);
            }
        }
        let r = i / w;
        let j = i % w;
        assert(i == r * w + j && 0 <= j < w && 0 <= r < rows.len()) by (nonlinear_arith)
            requires
                w > 0,
                0 <= i < rows.len() * w,
                r == i / w,
                j == i % w,
        ;
        let raw = field_cell(rows[r], fields, b, j);
        assert(c.holds(r * w + j, raw));
        assert(d.holds(r * w + j, raw));
    }
    match (c, d) {
        (Column::Int { data: x, .. }, Column::Int { data: y, .. }) => {
            assert forall|i: int| 0 <= i < x@.len() implies x@[i] == y@[i] by {
                assert(holds_alike(c, d, i));
            }
            assert(x@ =~= y@);
        },
        (Column::Float { data: x, .. }, Column::Float { data: y, .. }) => {
            assert forall|i: int| 0 <= i < x@.len() implies (#[trigger] x@[i])@ == y@[i]@ by {
                assert(holds_alike(c, d, i));
            }
        },
        (Column::Str { data: x, .. }, Column::Str { data: y, .. }) => {
            assert forall|i: int| 0 <= i < x@.len() implies (#[trigger] x@[i])@ == y@[i]@ by {
                assert(holds_alike(c, d, i));
            }
        },
        _ => {},
    }
}

/// Some field is what both columns hold at `i`.
pub open spec fn holds_alike(c: Column, d: Column, i: int) -> bool {
    exists|raw: Seq<u8>| c.holds(i, raw) && #[trigger] d.holds(i, raw)
}

/// However a keyword is parsed, block by block or in chunks on any number of
/// threads, its table has the same columns with the same values.
pub proof fn law_tables_agree(t: Table, u: Table, files: Seq<ParsedFile>, schema: Schema, a: int, b: int)
    requires
        is_table(t, files, schema),
        is_table(u, files, schema),
        0 <= a < schema.cards@.len(),
        0 <= b < schema.cards@[a].fields@.len(),
    ensures
        t.columns@.len() == u.columns@.len(),
        ({
            let i = fields_before(schema.cards@, a as nat) + b;
            &&& t.columns@[i].0@ == u.columns@[i].0@
            &&& same_values(t.columns@[i].1, u.columns@[i].1)
        }),
{
    let i = fields_before(schema.cards@, a as nat) + b;
    let x = t.columns@[fields_before(schema.cards@, a as nat) + b];
    let y = u.columns@[fields_before(schema.cards@, a as nat) + b];
    lemma_columns_agree(
        x.1,
        y.1,
        schema.cards@[a].fields@,
        b,
        schema_rows(files, schema, a),
    );
}

} // verus!
