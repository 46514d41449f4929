//! Rows of a keyword, and the columns that they make.

use crate::deck::column::{Column, Table};
use crate::deck::file::{body_of, name_of, same_word, CardFormat, ParsedFile};
use crate::deck::lines::{data_of, find_byte, slice_views, split, split_bytes, strip_eol, stripped};
use crate::deck::schema::{Card, FieldSpec, FieldType, Schema};
use vstd::prelude::*;
use vstd::slice::slice_subrange;

verus! {

/// A data line and the layout of its block.
pub type Line = (Seq<u8>, CardFormat);

/// The line is separated by commas.
pub open spec fn is_free(line: Line) -> bool {
    line.1 == CardFormat::Free || stripped(line.0).contains(44)
}

/// Columns per value of a field.
pub open spec fn field_width(f: FieldSpec, format: CardFormat) -> nat {
    if format == CardFormat::Long {
        2 * f.width as nat
    } else {
        f.width as nat
    }
}

/// Values of the first `b` fields.
pub open spec fn values_before(fields: Seq<FieldSpec>, b: nat) -> nat
    decreases b,
{
    if b == 0 {
        0
    } else {
        values_before(fields, (b - 1) as nat) + fields[b - 1].count as nat
    }
}

/// Columns of the first `b` fields.
pub open spec fn columns_before(fields: Seq<FieldSpec>, b: nat, format: CardFormat) -> nat
    decreases b,
{
    if b == 0 {
        0
    } else {
        columns_before(fields, (b - 1) as nat, format) + fields[b - 1].count as nat * field_width(
            fields[b - 1],
            format,
        )
    }
}

/// Piece `k`, or nothing when there are not as many.
pub open spec fn piece(s: Seq<Seq<u8>>, k: int) -> Seq<u8> {
    if k < s.len() {
        s[k]
    } else {
        Seq::empty()
    }
}

/// The `w` bytes from `off` on, as far as the line goes.
pub open spec fn span(s: Seq<u8>, off: int, w: nat) -> Seq<u8> {
    if off >= s.len() {
        Seq::empty()
    } else if off + w <= s.len() {
        s.subrange(off, off + w)
    } else {
        s.skip(off)
    }
}

/// Value `j` of field `b` in a line: by commas, or by columns.
pub open spec fn field_cell(line: Line, fields: Seq<FieldSpec>, b: int, j: int) -> Seq<u8> {
    let s = stripped(line.0);
    if is_free(line) {
        piece(split(s, 44), values_before(fields, b as nat) + j)
    } else {
        let w = field_width(fields[b], line.1);
        span(s, columns_before(fields, b as nat, line.1) + j * w, w)
    }
}

/// `n` is `c` with `count` values of field `b` of a line behind it.
pub open spec fn appended(
    c: Column,
    n: Column,
    line: Line,
    fields: Seq<FieldSpec>,
    b: int,
    count: nat,
) -> bool {
    &&& n.ncols() == c.ncols()
    &&& forall|t: FieldType| c.is_for(t) == #[trigger] n.is_for(t)
    &&& n.len() == c.len() + count
    &&& forall|i: int| 0 <= i < c.len() ==> #[trigger] n.same_at(i, c, i)
    &&& forall|j: int| 0 <= j < count ==> n.holds(c.len() + j, #[trigger] field_cell(line, fields, b, j))
}

/// The column holds field `b` of the rows, row by row.
pub open spec fn is_column(c: Column, fields: Seq<FieldSpec>, b: int, rows: Seq<Line>) -> bool {
    &&& c.is_for(fields[b].ty)
    &&& c.ncols() == fields[b].count
    &&& c.len() == rows.len() * fields[b].count
    &&& forall|r: int, j: int|
        0 <= r < rows.len() && 0 <= j < fields[b].count ==> c.holds(
            r * fields[b].count + j,
            #[trigger] field_cell(rows[r], fields, b, j),
        )
}

/// A column that grew by a row.
pub proof fn lemma_column_grows(
    c: Column,
    n: Column,
    line: Line,
    fields: Seq<FieldSpec>,
    b: int,
    rows: Seq<Line>,
)
    requires
        is_column(c, fields, b, rows),
        appended(c, n, line, fields, b, fields[b].count as nat),
    ensures
        is_column(n, fields, b, rows.push(line)),
{
    let w = fields[b].count as int;
    let m = rows.len() as int;
    let all = rows.push(line);
    assert((m + 1) * w == m * w + w) by (nonlinear_arith);
    assert forall|r: int, j: int| 0 <= r < all.len() && 0 <= j < w implies n.holds(
        r * w + j,
        #[trigger] field_cell(all[r], fields, b, j),
    ) by {
        if r < m {
            assert(all[r] == rows[r]);
            assert(0 <= r * w + j < m * w) by (nonlinear_arith)
                requires
                    0 <= r < m,
                    0 <= j < w,
            ;
            let raw = field_cell(rows[r], fields, b, j);
            assert(c.holds(r * w + j, raw));
            assert(n.same_at(r * w + j, c, r * w + j));
        } else {
            assert(all[r] == line);
        }
    }
}

/// The number of columns of the first `a` cards.
pub open spec fn fields_before(cards: Seq<Card>, a: nat) -> nat
    decreases a,
{
    if a == 0 {
        0
    } else {
        fields_before(cards, (a - 1) as nat) + cards[a - 1].fields@.len()
    }
}

pub proof fn lemma_fields_before(cards: Seq<Card>, a: nat, b: nat)
    requires
        a < b <= cards.len(),
    ensures
        fields_before(cards, a) + cards[a as int].fields@.len() <= fields_before(cards, b),
    decreases b,
{
    if a + 1 < b {
        lemma_fields_before(cards, a, (b - 1) as nat);
    }
}

/// The columns hold the rows: for card `a`, those of `rows(a)`.
pub open spec fn columns_hold(
    cols: Seq<Column>,
    cards: Seq<Card>,
    rows: spec_fn(int) -> Seq<Line>,
) -> bool {
    &&& cols.len() == fields_before(cards, cards.len())
    &&& forall|a: int, b: int|
        0 <= a < cards.len() && 0 <= b < cards[a].fields@.len() ==> is_column(
            #[trigger] cols[fields_before(cards, a as nat) + b],
            cards[a].fields@,
            b,
            rows(a),
        )
}

/// The lines that card `a` of `k` governs in one block.
pub open spec fn block_rows(
    lines: Seq<Seq<u8>>,
    format: CardFormat,
    k: nat,
    repeat: bool,
    a: int,
) -> Seq<Line> {
    let n: nat = if repeat {
        lines.len() / k
    } else if lines.len() >= k {
        1
    } else {
        0
    };
    Seq::new(n, |g: int| (lines[g * k + a], format))
}

/// The lines that card `a` of `k` governs in the blocks of a keyword, in all files
/// in front of `fi` and the first `bi` blocks of file `fi`.
pub open spec fn rows_up_to(
    files: Seq<ParsedFile>,
    fi: nat,
    bi: nat,
    keyword: Seq<u8>,
    k: nat,
    repeat: bool,
    a: int,
) -> Seq<Line>
    decreases fi, bi,
{
    if bi > 0 {
        let f = files[fi as int];
        let b = f.blocks@[bi - 1];
        let rest = rows_up_to(files, fi, (bi - 1) as nat, keyword, k, repeat, a);
        if same_word(name_of(f.src@, b), keyword) {
            rest + block_rows(data_of(body_of(f.src@, b)), b.format, k, repeat, a)
        } else {
            rest
        }
    } else if fi > 0 {
        rows_up_to(
            files,
            (fi - 1) as nat,
            files[fi - 1].blocks@.len(),
            keyword,
            k,
            repeat,
            a,
        )
    } else {
        Seq::empty()
    }
}

/// The lines that card `a` of a schema governs in all files.
pub open spec fn schema_rows(files: Seq<ParsedFile>, schema: Schema, a: int) -> Seq<Line> {
    rows_up_to(
        files,
        files.len(),
        0,
        vstd::utf8::encode_utf8(schema.keyword@),
        schema.cards@.len(),
        schema.repeat,
        a,
    )
}

/// The table that a schema makes of files: a column for every field, with its name.
pub open spec fn is_table(t: Table, files: Seq<ParsedFile>, schema: Schema) -> bool {
    let cards = schema.cards@;
    &&& t.columns@.len() == fields_before(cards, cards.len())
    &&& forall|a: int, b: int|
        0 <= a < cards.len() && 0 <= b < cards[a].fields@.len() ==> {
            let c = #[trigger] t.columns@[fields_before(cards, a as nat) + b];
            &&& c.0@ == cards[a].fields@[b].name@
            &&& is_column(c.1, cards[a].fields@, b, schema_rows(files, schema, a))
        }
}

/// All files have their blocks in them.
pub open spec fn all_wf(files: Seq<ParsedFile>) -> bool {
    forall|i: int| 0 <= i < files.len() ==> (#[trigger] files[i]).wf()
}

/// Empty columns for the fields of cards.
pub fn empty_columns(schema: &Schema) -> (r: Vec<Column>)
    ensures
        columns_hold(r@, schema.cards@, |a: int| Seq::empty()),
{
    let mut cols: Vec<Column> = Vec::new();
    let ghost cards = schema.cards@;
    for a in 0..schema.cards.len()
        invariant
            cards == schema.cards@,
            cols@.len() == fields_before(cards, a as nat),
            forall|x: int, b: int|
                0 <= x < a && 0 <= b < cards[x].fields@.len() ==> is_column(
                    #[trigger] cols@[fields_before(cards, x as nat) + b],
                    cards[x].fields@,
                    b,
                    Seq::empty(),
                ),
    {
        let fields = &schema.cards[a].fields;
        for b in 0..fields.len()
            invariant
                cards == schema.cards@,
                a < cards.len(),
                *fields == cards[a as int].fields,
                cols@.len() == fields_before(cards, a as nat) + b,
                forall|x: int, y: int|
                    0 <= x < a && 0 <= y < cards[x].fields@.len() ==> is_column(
                        #[trigger] cols@[fields_before(cards, x as nat) + y],
                        cards[x].fields@,
                        y,
                        Seq::empty(),
                    ),
                forall|y: int|
                    0 <= y < b ==> is_column(
                        #[trigger] cols@[fields_before(cards, a as nat) + y],
                        cards[a as int].fields@,
                        y,
                        Seq::empty(),
                    ),
        {
            let ghost before = cols@;
            cols.push(Column::empty(&fields[b]));
            proof {
                assert(0 * fields@[b as int].count == 0);
                assert forall|x: int, y: int|
                    0 <= x < a && 0 <= y < cards[x].fields@.len() implies is_column(
                    #[trigger] cols@[fields_before(cards, x as nat) + y],
                    cards[x].fields@,
                    y,
                    Seq::empty(),
                ) by {
                    lemma_fields_before(cards, x as nat, a as nat);
                    assert(cols@[fields_before(cards, x as nat) + y] == before[fields_before(
                        cards,
                        x as nat,
                    ) + y]);
                }
                assert forall|y: int| 0 <= y < b + 1 implies is_column(
                    #[trigger] cols@[fields_before(cards, a as nat) + y],
                    cards[a as int].fields@,
                    y,
                    Seq::empty(),
                ) by {
                    if y < b {
                        assert(cols@[fields_before(cards, a as nat) + y] == before[fields_before(
                            cards,
                            a as nat,
                        ) + y]);
                    }
                }
            }
        }
        assert forall|x: int, y: int|
            0 <= x < a + 1 && 0 <= y < cards[x].fields@.len() implies is_column(
            #[trigger] cols@[fields_before(cards, x as nat) + y],
            cards[x].fields@,
            y,
            Seq::empty(),
        ) by {}
    }
    cols
}

/// Field `b` of card `a` has its column, under its name.
pub open spec fn named_at(
    t: Seq<(String, Column)>,
    cols: Seq<Column>,
    cards: Seq<Card>,
    a: int,
    b: int,
) -> bool {
    let i = fields_before(cards, a as nat) + b;
    t[i].0@ == cards[a].fields@[b].name@ && t[i].1 == cols[i]
}

/// Puts names to columns.
pub fn named_table(schema: &Schema, cols: Vec<Column>) -> (r: Table)
    requires
        cols@.len() == fields_before(schema.cards@, schema.cards@.len()),
    ensures
        r.columns@.len() == cols@.len(),
        forall|a: int, b: int|
            0 <= a < schema.cards@.len() && 0 <= b < schema.cards@[a].fields@.len() ==> #[trigger] named_at(
                r.columns@,
                cols@,
                schema.cards@,
                a,
                b,
            ),
{
    let mut out: Vec<(String, Column)> = Vec::new();
    let mut rest: Vec<Column> = cols;
    let ghost cards = schema.cards@;
    let ghost all = cols@;
    for a in 0..schema.cards.len()
        invariant
            cards == schema.cards@,
            all.len() == fields_before(cards, cards.len()),
            out@.len() == fields_before(cards, a as nat),
            rest@ == all.skip(out@.len() as int),
            forall|x: int, y: int|
                0 <= x < a && 0 <= y < cards[x].fields@.len() ==> #[trigger] named_at(out@, all, cards, x, y),
    {
        let fields = &schema.cards[a].fields;
        proof {
            lemma_fields_before(cards, a as nat, cards.len());
        }
        for b in 0..fields.len()
            invariant
                cards == schema.cards@,
                a < cards.len(),
                *fields == cards[a as int].fields,
                all.len() == fields_before(cards, cards.len()),
                fields_before(cards, a as nat) + fields@.len() <= all.len(),
                out@.len() == fields_before(cards, a as nat) + b,
                rest@ == all.skip(out@.len() as int),
                forall|x: int, y: int|
                    0 <= x < a && 0 <= y < cards[x].fields@.len() ==> #[trigger] named_at(out@, all, cards, x, y),
                forall|y: int|
                    0 <= y < b ==> #[trigger] named_at(out@, all, cards, a as int, y),
        {
            let ghost before = out@;
            let c: Column = rest.remove(0);
            out.push((String::from_str(fields[b].name.as_str()), c));
            proof {
                assert(rest@ =~= all.skip(out@.len() as int));
                assert forall|x: int, y: int| 0 <= x < a && 0 <= y < cards[x].fields@.len() implies #[trigger] named_at(out@, all, cards, x, y) by {
                    lemma_fields_before(cards, x as nat, a as nat);
                    let i = fields_before(cards, x as nat) + y;
                    assert(named_at(before, all, cards, x, y));
                    assert(out@[i] == before[i]);
                }
                assert forall|y: int| 0 <= y < b + 1 implies #[trigger] named_at(out@, all, cards, a as int, y) by {
                    let i = fields_before(cards, a as nat) + y;
                    if y < b {
                        assert(named_at(before, all, cards, a as int, y));
                        assert(out@[i] == before[i]);
                    }
                }
            }
        }
        assert forall|x: int, y: int| 0 <= x < a + 1 && 0 <= y < cards[x].fields@.len() implies #[trigger] named_at(out@, all, cards, x, y) by {}
    }
    Table { columns: out }
}

/// Where a field ends: `off + w`, held to the largest number.
pub(crate) fn saturated(off: usize, w: usize) -> (r: usize)
    ensures
        r == if off + w > usize::MAX {
            usize::MAX as int
        } else {
            off + w
        },
{
    if off > usize::MAX - w {
        usize::MAX
    } else {
        off + w
    }
}

pub(crate) fn line_span(s: &[u8], off: usize, w: usize) -> (r: &[u8])
    ensures
        r@ == span(s@, off as int, w as nat),
{
    let n: usize = s.len();
    if off >= n {
        let r: &[u8] = slice_subrange(s, n, n);
        assert(r@ =~= Seq::<u8>::empty());
        r
    } else if w <= n - off {
        slice_subrange(s, off, off + w)
    } else {
        let r: &[u8] = slice_subrange(s, off, n);
        assert(r@ =~= s@.skip(off as int));
        r
    }
}

/// Appends the values of one field, separated by commas.
fn push_free(
    col: &mut Column,
    toks: &Vec<&[u8]>,
    at: usize,
    count: usize,
    Ghost(line): Ghost<Line>,
    Ghost(fields): Ghost<Seq<FieldSpec>>,
    Ghost(b): Ghost<int>,
)
    requires
        is_free(line),
        slice_views(toks@) == split(stripped(line.0), 44),
        at <= toks@.len(),
        at == toks@.len() || at == values_before(fields, b as nat),
        at <= values_before(fields, b as nat),
    ensures
        appended(*old(col), *final(col), line, fields, b, count as nat),
{
    let ghost start = *col;
    let empty: Vec<u8> = Vec::new();
    let n: usize = toks.len();
    for j in 0..count
        invariant
            n == toks@.len(),
            at <= n,
            empty@.len() == 0,
            is_free(line),
            slice_views(toks@) == split(stripped(line.0), 44),
            at == n || at == values_before(fields, b as nat),
            at <= values_before(fields, b as nat),
            appended(start, *col, line, fields, b, j as nat),
    {
        let ghost before = *col;
        let raw: &[u8] = if j < n - at { toks[at + j] } else { empty.as_slice() };
        proof {
            let all = slice_views(toks@);
            assert(all.len() == n);
            if j < n - at {
                assert(all[at + j] == toks@[at + j]@);
            } else {
                assert(raw@ =~= Seq::<u8>::empty());
            }
            assert(raw@ == field_cell(line, fields, b, j as int));
        }
        col.push(raw);
        proof {
            lemma_append_one(start, before, *col, line, fields, b, j as nat);
        }
    }
}

/// One more value.
proof fn lemma_append_one(
    start: Column,
    before: Column,
    after: Column,
    line: Line,
    fields: Seq<FieldSpec>,
    b: int,
    j: nat,
)
    requires
        appended(start, before, line, fields, b, j),
        after.ncols() == before.ncols(),
        forall|t: FieldType| before.is_for(t) == #[trigger] after.is_for(t),
        after.len() == before.len() + 1,
        forall|i: int| 0 <= i < before.len() ==> #[trigger] after.same_at(i, before, i),
        after.holds(before.len() as int, field_cell(line, fields, b, j as int)),
    ensures
        appended(start, after, line, fields, b, j + 1),
{
    assert forall|i: int| 0 <= i < start.len() implies #[trigger] after.same_at(i, start, i) by {
        assert(before.same_at(i, start, i));
        assert(after.same_at(i, before, i));
    }
    assert forall|x: int| 0 <= x < j + 1 implies after.holds(
        start.len() + x,
        #[trigger] field_cell(line, fields, b, x),
    ) by {
        if x < j {
            assert(before.holds(start.len() + x, field_cell(line, fields, b, x)));
            assert(after.same_at(start.len() + x, before, start.len() + x));
        }
    }
    assert forall|t: FieldType| start.is_for(t) == #[trigger] after.is_for(t) by {
        assert(before.is_for(t) == start.is_for(t));
    }
}

/// Appends the values of one field, by columns; gives the column behind them.
fn push_fixed(
    col: &mut Column,
    s: &[u8],
    off: usize,
    w: usize,
    count: usize,
    Ghost(line): Ghost<Line>,
    Ghost(fields): Ghost<Seq<FieldSpec>>,
    Ghost(b): Ghost<int>,
) -> (r: usize)
    requires
        !is_free(line),
        s@ == stripped(line.0),
        0 <= b < fields.len(),
        w == field_width(fields[b], line.1) || (w == usize::MAX && w <= field_width(
            fields[b],
            line.1,
        )),
        off == columns_before(fields, b as nat, line.1) || (off == usize::MAX && off
            <= columns_before(fields, b as nat, line.1)),
        count == fields[b].count,
    ensures
        appended(*old(col), *final(col), line, fields, b, count as nat),
        r == columns_before(fields, (b + 1) as nat, line.1) || (r == usize::MAX && r
            <= columns_before(fields, (b + 1) as nat, line.1)),
{
    let ghost start = *col;
    let mut o: usize = off;
    let ghost fw = field_width(fields[b], line.1) as int;
    let ghost base = columns_before(fields, b as nat, line.1) as int;
    let n: usize = s.len();
    assert(0 * fw == 0);
    for j in 0..count
        invariant
            n == s@.len(),
            !is_free(line),
            s@ == stripped(line.0),
            0 <= b < fields.len(),
            fw == field_width(fields[b], line.1),
            base == columns_before(fields, b as nat, line.1),
            w == fw || (w == usize::MAX && w <= fw),
            o == base + j * fw || (o == usize::MAX && o <= base + j * fw),
            appended(start, *col, line, fields, b, j as nat),
    {
        let ghost before = *col;
        let raw: &[u8] = line_span(s, o, w);
        proof {
            let at = base + j * fw;
            assert((j + 1) * fw == j * fw + fw) by (nonlinear_arith);
            assert(raw@ =~= span(s@, at, fw as nat)) by {
                if o < n {
                    assert(o == at);
                }
            }
            assert(raw@ == field_cell(line, fields, b, j as int));
        }
        col.push(raw);
        proof {
            lemma_append_one(start, before, *col, line, fields, b, j as nat);
        }
        o = saturated(o, w);
    }
    o
}

/// Appends the fields of one line to the columns from `ci` on; gives the next
/// column. Every column gets a value for each of its places, also where the line
/// is short.
pub fn parse_card_line(
    line: &[u8],
    card: &Card,
    format: CardFormat,
    cols: &mut Vec<Column>,
    ci: usize,
) -> (r: usize)
    requires
        ci + card.fields@.len() <= old(cols)@.len(),
    ensures
        r == ci + card.fields@.len(),
        final(cols)@.len() == old(cols)@.len(),
        forall|i: int|
            0 <= i < old(cols)@.len() && !(ci <= i < r) ==> final(cols)@[i] == #[trigger] old(
                cols,
            )@[i],
        forall|b: int|
            0 <= b < card.fields@.len() ==> appended(
                old(cols)@[ci + b],
                #[trigger] final(cols)@[ci + b],
                (line@, format),
                card.fields@,
                b,
                card.fields@[b].count as nat,
            ),
{
    let ghost all = (line@, format);
    let ghost fields = card.fields@;
    let ghost start = cols@;
    let s: &[u8] = strip_eol(line);
    let free: bool = if format == CardFormat::Free {
        true
    } else {
        match find_byte(44, s) {
            Some(_) => true,
            None => false,
        }
    };
    assert(free == is_free(all));
    let n: usize = card.fields.len();
    let toks: Vec<&[u8]> = split_bytes(s, 44);
    let total: usize = toks.len();
    let width: usize = cols.len();
    let mut at: usize = 0;
    let mut off: usize = 0;
    for b in 0..n
        invariant
            n == fields.len(),
            fields == card.fields@,
            all == (line@, format),
            free == is_free(all),
            s@ == stripped(line@),
            slice_views(toks@) == split(s@, 44),
            total == toks@.len(),
            width == cols@.len(),
            width == start.len(),
            ci + n <= width,
            at <= total,
            at == total || at == values_before(fields, b as nat),
            at <= values_before(fields, b as nat),
            off == columns_before(fields, b as nat, format) || (off == usize::MAX && off
                <= columns_before(fields, b as nat, format)) || free,
            forall|i: int|
                0 <= i < width && !(ci <= i < ci + b) ==> cols@[i] == #[trigger] start[i],
            forall|x: int|
                0 <= x < b ==> appended(
                    start[ci + x],
                    #[trigger] cols@[ci + x],
                    all,
                    fields,
                    x,
                    fields[x].count as nat,
                ),
    {
        let ghost before = cols@;
        let f = &card.fields[b];
        let k: usize = ci + b;
        assert(cols@[k as int] == start[k as int]);
        if free {
            push_free(
                &mut cols[k],
                &toks,
                at,
                f.count,
                Ghost(all),
                Ghost(fields),
                Ghost(b as int),
            );
            at = if f.count >= total - at { total } else { at + f.count };
        } else {
            let w: usize = if format == CardFormat::Long {
                saturated(f.width, f.width)
            } else {
                f.width
            };
            off = push_fixed(
                &mut cols[k],
                s,
                off,
                w,
                f.count,
                Ghost(all),
                Ghost(fields),
                Ghost(b as int),
            );
            at = if f.count >= total - at { total } else { at + f.count };
        }
        proof {
            assert forall|x: int| 0 <= x < b + 1 implies appended(
                start[ci + x],
                #[trigger] cols@[ci + x],
                all,
                fields,
                x,
                fields[x].count as nat,
            ) by {
                if x < b {
                    assert(cols@[ci + x] == before[ci + x]);
                }
            }
        }
    }
    ci + n
}

} // verus!
