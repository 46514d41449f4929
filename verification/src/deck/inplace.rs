//! Numeric columns, filled row by row.

use crate::deck::chunks::{chunk_rows, collect_chunks, tagged};
use crate::deck::column::{Column, Table};
use crate::deck::file::{CardFormat, ParsedFile};
use crate::deck::lines::{body_lines, data_of, find_byte, slice_views, split, split_bytes, strip_eol, stripped};
use crate::deck::parse::{lemma_chunked_table, parse_parallel_partials};
use crate::deck::rows::{
    all_wf, columns_before, columns_hold, field_cell, field_width, fields_before, is_column, is_free,
    is_table, line_span, named_table, saturated, span, values_before, Line,
};
use crate::deck::schema::{Card, FieldSpec, FieldType, Schema};
use vstd::prelude::*;

verus! {

/// `n` is `c` with the first `count` values of field `b` of a line in row `row`.
pub open spec fn wrote(
    c: Column,
    n: Column,
    line: Line,
    fields: Seq<FieldSpec>,
    b: int,
    row: int,
    count: int,
) -> bool {
    let w = fields[b].count as int;
    &&& n.ncols() == c.ncols()
    &&& forall|t: FieldType| c.is_for(t) == #[trigger] n.is_for(t)
    &&& n.len() == c.len()
    &&& forall|i: int|
        0 <= i < c.len() && !(row * w <= i < row * w + count) ==> #[trigger] n.same_at(i, c, i)
    &&& forall|j: int| 0 <= j < count ==> n.holds(row * w + j, #[trigger] field_cell(line, fields, b, j))
}

/// The column has room for field `b` of all rows, and holds it in the first `n`.
pub open spec fn filled(
    c: Column,
    fields: Seq<FieldSpec>,
    b: int,
    rows: Seq<Line>,
    n: int,
) -> bool {
    &&& c.is_for(fields[b].ty)
    &&& c.ncols() == fields[b].count
    &&& c.len() == rows.len() * fields[b].count
    &&& forall|r: int, j: int|
        0 <= r < n && 0 <= j < fields[b].count ==> c.holds(
            r * fields[b].count + j,
            #[trigger] field_cell(rows[r], fields, b, j),
        )
}

proof fn lemma_wrote_one(
    start: Column,
    before: Column,
    after: Column,
    line: Line,
    fields: Seq<FieldSpec>,
    b: int,
    row: int,
    j: int,
)
    requires
        0 <= j,
        0 <= row,
        wrote(start, before, line, fields, b, row, j),
        after.ncols() == before.ncols(),
        forall|t: FieldType| before.is_for(t) == #[trigger] after.is_for(t),
        after.len() == before.len(),
        forall|k: int|
            0 <= k < before.len() && k != row * fields[b].count + j ==> #[trigger] after.same_at(
                k,
                before,
                k,
            ),
        row * fields[b].count + j < before.len(),
        after.holds(row * fields[b].count + j, field_cell(line, fields, b, j)),
    ensures
        wrote(start, after, line, fields, b, row, j + 1),
{
    let w = fields[b].count as int;
    assert(0 <= row * w) by (nonlinear_arith)
        requires
            0 <= row,
            0 <= w,
    ;
    assert forall|i: int| 0 <= i < start.len() && !(row * w <= i < row * w + j + 1) implies #[trigger] after.same_at(
    i, start, i) by {
        assert(before.same_at(i, start, i));
        assert(after.same_at(i, before, i));
    }
    assert forall|x: int| 0 <= x < j + 1 implies after.holds(
        row * w + x,
        #[trigger] field_cell(line, fields, b, x),
    ) by {
        if x < j {
            assert(before.holds(row * w + x, field_cell(line, fields, b, x)));
            assert(after.same_at(row * w + x, before, row * w + x));
        }
    }
    assert forall|t: FieldType| start.is_for(t) == #[trigger] after.is_for(t) by {
        assert(before.is_for(t) == start.is_for(t));
    }
}

proof fn lemma_filled_grows(
    c: Column,
    n: Column,
    fields: Seq<FieldSpec>,
    b: int,
    rows: Seq<Line>,
    row: int,
)
    requires
        0 <= row < rows.len(),
        filled(c, fields, b, rows, row),
        wrote(c, n, rows[row], fields, b, row, fields[b].count as int),
    ensures
        filled(n, fields, b, rows, row + 1),
{
    let w = fields[b].count as int;
    assert forall|r: int, j: int| 0 <= r < row + 1 && 0 <= j < w implies n.holds(
        r * w + j,
        #[trigger] field_cell(rows[r], fields, b, j),
    ) by {
        if r < row {
            assert(0 <= r * w + j < row * w && row * w <= rows.len() * w) by (nonlinear_arith)
                requires
                    0 <= r < row < rows.len(),
                    0 <= j < w,
            ;
            assert(c.holds(r * w + j, field_cell(rows[r], fields, b, j)));
            assert(n.same_at(r * w + j, c, r * w + j));
        }
    }
}

/// Writes the fields of a line into row `row` of the columns.
fn fill_line(
    line: &[u8],
    card: &Card,
    format: CardFormat,
    cols: &mut Vec<Column>,
    row: usize,
    Ghost(rows): Ghost<Seq<Line>>,
)
    requires
        old(cols)@.len() == card.fields@.len(),
        row < rows.len(),
        rows[row as int] == (line@, format),
        forall|b: int|
            0 <= b < card.fields@.len() ==> filled(
                #[trigger] old(cols)@[b],
                card.fields@,
                b,
                rows,
                row as int,
            ),
    ensures
        final(cols)@.len() == card.fields@.len(),
        forall|b: int|
            0 <= b < card.fields@.len() ==> filled(
                #[trigger] final(cols)@[b],
                card.fields@,
                b,
                rows,
                row + 1,
            ),
{
    let ghost all = (line@, format);
    let ghost fields = card.fields@;
    let s: &[u8] = strip_eol(line);
    let free: bool = if format == CardFormat::Free {
        true
    } else {
        match find_byte(44, s) {
            Some(_) => true,
            None => false,
        }
    };
    assert(free == is_free(all));
    let n: usize = card.fields.len();
    let toks: Vec<&[u8]> = split_bytes(s, 44);
    let total: usize = toks.len();
    let empty: Vec<u8> = Vec::new();
    let mut at: usize = 0;
    let mut off: usize = 0;
    let len: usize = s.len();
    for b in 0..n
        invariant
            n == fields.len(),
            fields == card.fields@,
            cols@.len() == n,
            all == (line@, format),
            row < rows.len(),
            rows[row as int] == all,
            free == is_free(all),
            s@ == stripped(line@),
            len == s@.len(),
            empty@.len() == 0,
            slice_views(toks@) == split(s@, 44),
            total == toks@.len(),
            at <= total,
            at == total || at == values_before(fields, b as nat),
            at <= values_before(fields, b as nat),
            off == columns_before(fields, b as nat, format) || (off == usize::MAX && off
                <= columns_before(fields, b as nat, format)),
            forall|x: int|
                0 <= x < b ==> filled(#[trigger] cols@[x], fields, x, rows, row + 1),
            forall|x: int|
                b <= x < n ==> filled(#[trigger] cols@[x], fields, x, rows, row as int),
    {
        let f = &card.fields[b];
        let count: usize = f.count;
        let w: usize = if format == CardFormat::Long {
            saturated(f.width, f.width)
        } else {
            f.width
        };
        let ghost before = cols@;
        let ghost start = cols@[b as int];
        let ghost fw = field_width(fields[b as int], format) as int;
        let ghost base = columns_before(fields, b as nat, format) as int;
        let size: usize = match &cols[b] {
            Column::Int { data, .. } => data.len(),
            Column::Float { data, .. } => data.len(),
            Column::Str { data, .. } => data.len(),
        };
        assert(filled(start, fields, b as int, rows, row as int));
        assert(0 <= row * count && row * count + count <= rows.len() * count) by (nonlinear_arith)
            requires
                row < rows.len(),
        ;
        assert(0 * fw == 0);
        assert(row * count + count <= size);
        let first: usize = row * count;
        for j in 0..count
            invariant
                n == fields.len(),
                b < n,
                cols@.len() == n,
                all == (line@, format),
                count == fields[b as int].count,
                free == is_free(all),
                s@ == stripped(line@),
                len == s@.len(),
                empty@.len() == 0,
                slice_views(toks@) == split(s@, 44),
                total == toks@.len(),
                at <= total,
                at == total || at == values_before(fields, b as nat),
                at <= values_before(fields, b as nat),
                first == row * count,
                first + count <= size,
                size == start.len(),
                fw == field_width(fields[b as int], format),
                base == columns_before(fields, b as nat, format),
                w == fw || (w == usize::MAX && w <= fw),
                off == base + j * fw || (off == usize::MAX && off <= base + j * fw),
                wrote(start, cols@[b as int], all, fields, b as int, row as int, j as int),
                forall|x: int| 0 <= x < n && x != b ==> cols@[x] == #[trigger] before[x],
        {
            let ghost now = cols@[b as int];
            let raw: &[u8] = if free {
                if j < total - at {
                    toks[at + j]
                } else {
                    empty.as_slice()
                }
            } else {
                line_span(s, off, w)
            };
            proof {
                assert((j + 1) * fw == j * fw + fw) by (nonlinear_arith);
                let pieces = slice_views(toks@);
                assert(pieces.len() == total);
                if free {
                    if j < total - at {
                        assert(pieces[at + j] == toks@[at + j]@);
                    } else {
                        assert(raw@ =~= Seq::<u8>::empty());
                    }
                } else {
                    let to = base + j * fw;
                    assert(raw@ =~= span(s@, to, fw as nat)) by {
                        if off < len {
                            assert(off == to);
                        }
                    }
                }
                assert(raw@ == field_cell(all, fields, b as int, j as int));
            }
            cols[b].set(first + j, raw);
            proof {
                lemma_wrote_one(
                    start,
                    now,
                    cols@[b as int],
                    all,
                    fields,
                    b as int,
                    row as int,
                    j as int,
                );
            }
            off = saturated(off, w);
        }
        at = if count >= total - at { total } else { at + count };
        proof {
            lemma_filled_grows(start, cols@[b as int], fields, b as int, rows, row as int);
            assert forall|x: int| 0 <= x < b + 1 implies filled(
                #[trigger] cols@[x],
                fields,
                x,
                rows,
                row + 1,
            ) by {
                if x < b {
                    assert(cols@[x] == before[x]);
                }
            }
            assert forall|x: int| b + 1 <= x < n implies filled(
                #[trigger] cols@[x],
                fields,
                x,
                rows,
                row as int,
            ) by {
                assert(cols@[x] == before[x]);
            }
        }
    }
}

/// The rows of the chunks in front come first.
proof fn lemma_chunk_rows_prefix(chunks: Seq<(&[u8], CardFormat)>, i: nat, n: nat)
    requires
        i <= n,
    ensures
        chunk_rows(chunks, i).len() <= chunk_rows(chunks, n).len(),
        chunk_rows(chunks, n).take(chunk_rows(chunks, i).len() as int) == chunk_rows(chunks, i),
    decreases n,
{
    let x = chunk_rows(chunks, i);
    if i == n {
        assert(x.take(x.len() as int) =~= x);
    } else {
        lemma_chunk_rows_prefix(chunks, i, (n - 1) as nat);
        let y = chunk_rows(chunks, (n - 1) as nat);
        let z = chunk_rows(chunks, n);
        assert(z.take(x.len() as int) =~= y.take(x.len() as int));
    }
}

/// Parses all-numeric rows in two passes: the first counts the rows of each chunk,
/// which tells where its rows go; the second writes them there.
pub(crate) fn parse_parallel_numeric(files: &[ParsedFile], schema: &Schema) -> (r: Table)
    requires
        all_wf(files@),
        schema.cards@.len() == 1,
        schema.repeat,
        forall|b: int|
            0 <= b < schema.cards@[0].fields@.len() ==> (#[trigger] schema.cards@[0].fields@[b]).ty
                != FieldType::Str,
    ensures
        is_table(r, files@, *schema),
{
    let card = &schema.cards[0];
    let ghost fields = card.fields@;
    let ghost cards = schema.cards@;
    let chunks: Vec<(&[u8], CardFormat)> = collect_chunks(files, schema.keyword.as_str());
    let ghost all = chunk_rows(chunks@, chunks@.len());

    let mut offsets: Vec<usize> = Vec::new();
    let mut total: usize = 0;
    for i in 0..chunks.len()
        invariant
            total == chunk_rows(chunks@, i as nat).len(),
            offsets@.len() == i,
            forall|k: int|
                0 <= k < i ==> #[trigger] offsets@[k] == chunk_rows(chunks@, k as nat).len(),
            all_wf(files@),
            schema.cards@.len() == 1,
            schema.repeat,
    {
        let n: usize = body_lines(chunks[i].0).len();
        if n > usize::MAX - total {
            return parse_parallel_partials(files, schema);
        }
        offsets.push(total);
        total = total + n;
    }

    let width: usize = card.fields.len();
    let mut cols: Vec<Column> = Vec::new();
    for b in 0..width
        invariant
            width == fields.len(),
            fields == card.fields@,
            total == all.len(),
            cols@.len() == b,
            forall|x: int|
                0 <= x < width ==> (#[trigger] fields[x]).ty != FieldType::Str,
            forall|x: int| 0 <= x < b ==> filled(#[trigger] cols@[x], fields, x, all, 0),
    {
        let ghost before = cols@;
        assert(fields[b as int].ty != FieldType::Str);
        cols.push(Column::blank(&card.fields[b], total));
        assert forall|x: int| 0 <= x < b + 1 implies filled(
            #[trigger] cols@[x],
            fields,
            x,
            all,
            0,
        ) by {
            if x < b {
                assert(cols@[x] == before[x]);
            }
        }
    }

    for i in 0..chunks.len()
        invariant
            width == fields.len(),
            fields == card.fields@,
            cols@.len() == width,
            all == chunk_rows(chunks@, chunks@.len()),
            offsets@.len() == chunks@.len(),
            forall|k: int|
                0 <= k < chunks@.len() ==> #[trigger] offsets@[k] == chunk_rows(
                    chunks@,
                    k as nat,
                ).len(),
            forall|x: int|
                0 <= x < width ==> filled(
                    #[trigger] cols@[x],
                    fields,
                    x,
                    all,
                    chunk_rows(chunks@, i as nat).len() as int,
                ),
            all.len() <= usize::MAX,
    {
        let (chunk, format) = chunks[i];
        let lines: Vec<&[u8]> = body_lines(chunk);
        let ghost data = data_of(chunk@);
        let ghost here = chunk_rows(chunks@, i as nat);
        let first: usize = offsets[i];
        proof {
            lemma_chunk_rows_prefix(chunks@, (i + 1) as nat, chunks@.len());
            assert(chunk_rows(chunks@, (i + 1) as nat) == here + tagged(data, format));
            assert(slice_views(lines@) == data);
        }
        let n: usize = lines.len();
        for k in 0..n
            invariant
                width == fields.len(),
                fields == card.fields@,
                cols@.len() == width,
                n == lines@.len(),
                slice_views(lines@) == data,
                first == here.len(),
                first + n <= all.len(),
                all.len() <= usize::MAX,
                all.take((first + n) as int) == here + tagged(data, format),
                forall|x: int|
                    0 <= x < width ==> filled(
                        #[trigger] cols@[x],
                        fields,
                        x,
                        all,
                        first + k,
                    ),
        {
            proof {
                assert(all[first + k] == all.take((first + n) as int)[first + k]);
                assert(tagged(data, format)[k as int] == (data[k as int], format));
                assert(data[k as int] == lines@[k as int]@);
            }
            fill_line(lines[k], card, format, &mut cols, first + k, Ghost(all));
        }
    }
    let ghost done = cols@;
    proof {
        reveal_with_fuel(fields_before, 2);
        let f = |a: int| all;
        assert forall|a: int, b: int|
            0 <= a < cards.len() && 0 <= b < cards[a].fields@.len() implies is_column(
            #[trigger] done[fields_before(cards, a as nat) + b],
            cards[a].fields@,
            b,
            f(a),
        ) by {
            assert(a == 0);
            assert(filled(done[b], fields, b, all, all.len() as int));
        }
        assert(columns_hold(done, cards, f));
    }
    let t: Table = named_table(schema, cols);
    proof {
        lemma_chunked_table(t, done, files@, *schema, all);
    }
    t
}

/// Tells whether a card has a text field.
fn has_text(card: &Card) -> (r: bool)
    ensures
        r == exists|b: int|
            0 <= b < card.fields@.len() && (#[trigger] card.fields@[b]).ty == FieldType::Str,
{
    for b in 0..card.fields.len()
        invariant
            forall|x: int| 0 <= x < b ==> (#[trigger] card.fields@[x]).ty != FieldType::Str,
    {
        if card.fields[b].ty == FieldType::Str {
            assert(card.fields@[b as int].ty == FieldType::Str);
            return true;
        }
    }
    false
}

/// Parses a lone repeating card: in place where all fields are numbers.
fn parse_parallel(files: &[ParsedFile], schema: &Schema) -> (r: Table)
    requires
        all_wf(files@),
        schema.cards@.len() == 1,
        schema.repeat,
    ensures
        is_table(r, files@, *schema),
{
    if has_text(&schema.cards[0]) {
        parse_parallel_partials(files, schema)
    } else {
        parse_parallel_numeric(files, schema)
    }
}

/// Parses every block of the schema's keyword in all files into one table, whose
/// columns follow the files. A schema without cards gives an empty table.
pub fn parse_schema_files(files: &[ParsedFile], schema: &Schema) -> (r: Table)
    requires
        all_wf(files@),
    ensures
        is_table(r, files@, *schema),
{
    if schema.cards.len() == 0 {
        return Table { columns: Vec::new() };
    }
    if schema.cards.len() == 1 && schema.repeat {
        parse_parallel(files, schema)
    } else {
        crate::deck::parse::parse_sequential(files, schema)
    }
}

/// Parses every block of the schema's keyword in one file.
pub fn parse_schema(parsed: &ParsedFile, schema: &Schema) -> (r: Table)
    requires
        parsed.wf(),
    ensures
        is_table(r, seq![*parsed], *schema),
{
    let files: &[ParsedFile] = one_file(parsed);
    assert(files@ =~= seq![*parsed]);
    parse_schema_files(files, schema)
}

/// Calls `std::slice::from_ref`, which gives a slice of one element.
#[verifier::external_body]
pub(crate) fn one_file(parsed: &ParsedFile) -> (r: &[ParsedFile])
    ensures
        r@ == seq![*parsed],
{
    std::slice::from_ref(parsed)
}

} // verus!
