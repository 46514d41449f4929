//! Parsing the blocks of a keyword into a table.

use crate::deck::chunks::{chunk_rows, collect_chunks, tagged};
use crate::deck::column::{Column, Table};
use crate::deck::file::{body_of, lies_in, same_name, Block, CardFormat, ParsedFile};
use crate::deck::lines::{body_lines, data_of, slice_views};
use crate::deck::rows::{
    all_wf, appended, block_rows, columns_hold, empty_columns, fields_before, is_column, is_table,
    lemma_column_grows, lemma_fields_before, named_at, named_table, parse_card_line, rows_up_to,
    schema_rows, Line,
};
use crate::deck::schema::{Card, FieldSpec, FieldType, Schema};
use vstd::prelude::*;

verus! {

/// The columns of the first `m` cards hold one row more than those of the others.
pub open spec fn half_way(
    cols: Seq<Column>,
    cards: Seq<Card>,
    rows: spec_fn(int) -> Seq<Line>,
    next: spec_fn(int) -> Line,
    m: int,
) -> bool {
    columns_hold(
        cols,
        cards,
        |a: int|
            if a < m {
                rows(a).push(next(a))
            } else {
                rows(a)
            },
    )
}

/// Appends one entity: a line for each card.
fn parse_group(
    schema: &Schema,
    lines: &Vec<&[u8]>,
    base: usize,
    format: CardFormat,
    cols: &mut Vec<Column>,
    Ghost(rows): Ghost<spec_fn(int) -> Seq<Line>>,
)
    requires
        base + schema.cards@.len() <= lines@.len(),
        columns_hold(old(cols)@, schema.cards@, rows),
    ensures
        columns_hold(
            final(cols)@,
            schema.cards@,
            |a: int| rows(a).push((lines@[base + a]@, format)),
        ),
{
    let ghost cards = schema.cards@;
    let ghost next = |a: int| (lines@[base + a]@, format);
    let n: usize = schema.cards.len();
    let total: usize = lines.len();
    let mut ci: usize = 0;
    proof {
        assert forall|a: int, b: int|
            0 <= a < cards.len() && 0 <= b < cards[a].fields@.len() implies is_column(
            #[trigger] cols@[fields_before(cards, a as nat) + b],
            cards[a].fields@,
            b,
            rows(a),
        ) by {}
        assert(half_way(cols@, cards, rows, next, 0));
    }
    for m in 0..n
        invariant
            n == cards.len(),
            cards == schema.cards@,
            total == lines@.len(),
            base + n <= total,
            next == (|a: int| (lines@[base + a]@, format)),
            ci == fields_before(cards, m as nat),
            half_way(cols@, cards, rows, next, m as int),
    {
        let ghost before = cols@;
        proof {
            lemma_fields_before(cards, m as nat, cards.len());
        }
        let card = &schema.cards[m];
        ci = parse_card_line(lines[base + m], card, format, cols, ci);
        proof {
            let from = fields_before(cards, m as nat);
            let now = |a: int|
                if a < m + 1 {
                    rows(a).push(next(a))
                } else {
                    rows(a)
                };
            assert forall|a: int, b: int|
                0 <= a < cards.len() && 0 <= b < cards[a].fields@.len() implies is_column(
                #[trigger] cols@[fields_before(cards, a as nat) + b],
                cards[a].fields@,
                b,
                now(a),
            ) by {
                let i = fields_before(cards, a as nat) + b;
                lemma_fields_before(cards, a as nat, cards.len());
                assert(is_column(
                    before[i],
                    cards[a].fields@,
                    b,
                    if a < m {
                        rows(a).push(next(a))
                    } else {
                        rows(a)
                    },
                ));
                if a == m {
                    assert(appended(
                        before[from + b],
                        cols@[from + b],
                        next(a),
                        cards[a].fields@,
                        b,
                        cards[a].fields@[b].count as nat,
                    ));
                    lemma_column_grows(
                        before[i],
                        cols@[i],
                        next(a),
                        cards[a].fields@,
                        b,
                        rows(a),
                    );
                } else {
                    if a < m {
                        lemma_fields_before(cards, a as nat, m as nat);
                    } else {
                        lemma_fields_before(cards, m as nat, a as nat);
                    }
                    assert(cols@[i] == before[i]);
                }
            }
            assert(half_way(cols@, cards, rows, next, m + 1));
        }
    }
    proof {
        let done = |a: int| rows(a).push((lines@[base + a]@, format));
        assert forall|a: int, b: int|
            0 <= a < cards.len() && 0 <= b < cards[a].fields@.len() implies is_column(
            #[trigger] cols@[fields_before(cards, a as nat) + b],
            cards[a].fields@,
            b,
            done(a),
        ) by {}
    }
}

/// The rows of card `a` after `g` entities of a block.
pub open spec fn rows_after(
    before: spec_fn(int) -> Seq<Line>,
    lines: Seq<Seq<u8>>,
    format: CardFormat,
    k: nat,
    g: nat,
) -> spec_fn(int) -> Seq<Line> {
    |a: int| before(a) + Seq::new(g, |x: int| (lines[x * k + a], format))
}

proof fn lemma_hold_same(
    cols: Seq<Column>,
    cards: Seq<Card>,
    f: spec_fn(int) -> Seq<Line>,
    g: spec_fn(int) -> Seq<Line>,
)
    requires
        columns_hold(cols, cards, f),
        forall|a: int| 0 <= a < cards.len() ==> #[trigger] f(a) == g(a),
    ensures
        columns_hold(cols, cards, g),
{
    assert forall|a: int, b: int|
        0 <= a < cards.len() && 0 <= b < cards[a].fields@.len() implies is_column(
        #[trigger] cols[fields_before(cards, a as nat) + b],
        cards[a].fields@,
        b,
        g(a),
    ) by {
        assert(f(a) == g(a));
    }
}

/// Appends the entities of one block.
fn parse_block(
    schema: &Schema,
    body: &[u8],
    format: CardFormat,
    cols: &mut Vec<Column>,
    Ghost(rows): Ghost<spec_fn(int) -> Seq<Line>>,
)
    requires
        schema.cards@.len() > 0,
        columns_hold(old(cols)@, schema.cards@, rows),
    ensures
        columns_hold(
            final(cols)@,
            schema.cards@,
            |a: int|
                rows(a) + block_rows(
                    data_of(body@),
                    format,
                    schema.cards@.len(),
                    schema.repeat,
                    a,
                ),
        ),
{
    let ghost cards = schema.cards@;
    let lines: Vec<&[u8]> = body_lines(body);
    let ghost all = data_of(body@);
    let k: usize = schema.cards.len();
    let total: usize = lines.len();
    assert(slice_views(lines@) == all);
    assert(all.len() == total);
    let groups: usize = if schema.repeat {
        total / k
    } else if total >= k {
        1
    } else {
        0
    };
    assert(groups * k <= total) by {
        if schema.repeat {
            assert((total / k) * k <= total) by (nonlinear_arith)
                requires
                    k > 0,
            ;
        }
    }
    proof {
        let start = rows_after(rows, all, format, k as nat, 0);
        assert forall|a: int| 0 <= a < cards.len() implies #[trigger] rows(a) == start(a) by {
            assert(start(a) =~= rows(a));
        }
        lemma_hold_same(cols@, cards, rows, start);
    }
    for g in 0..groups
        invariant
            k > 0,
            k == schema.cards@.len(),
            cards == schema.cards@,
            total == lines@.len(),
            groups * k <= total,
            slice_views(lines@) == all,
            columns_hold(cols@, cards, rows_after(rows, all, format, k as nat, g as nat)),
    {
        assert(0 <= g * k && g * k + k <= groups * k) by (nonlinear_arith)
            requires
                g < groups,
        ;
        let ghost now = rows_after(rows, all, format, k as nat, g as nat);
        let base: usize = g * k;
        parse_group(schema, &lines, base, format, cols, Ghost(now));
        proof {
            let f = |a: int| now(a).push((lines@[base + a]@, format));
            let next = rows_after(rows, all, format, k as nat, (g + 1) as nat);
            assert forall|a: int| 0 <= a < cards.len() implies #[trigger] f(a) == next(a) by {
                assert(all[base + a] == lines@[base + a]@);
                assert(f(a) =~= next(a));
            }
            lemma_hold_same(cols@, cards, f, next);
        }
    }
    proof {
        let f = rows_after(rows, all, format, k as nat, groups as nat);
        let want = |a: int| rows(a) + block_rows(all, format, k as nat, schema.repeat, a);
        assert forall|a: int| 0 <= a < cards.len() implies #[trigger] f(a) == want(a) by {
            assert(f(a) =~= want(a));
        }
        lemma_hold_same(cols@, cards, f, want);
    }
}

/// The rows of every card up to a block.
pub open spec fn rows_so_far(
    files: Seq<ParsedFile>,
    fi: nat,
    bi: nat,
    schema: Schema,
) -> spec_fn(int) -> Seq<Line> {
    |a: int|
        rows_up_to(
            files,
            fi,
            bi,
            vstd::utf8::encode_utf8(schema.keyword@),
            schema.cards@.len(),
            schema.repeat,
            a,
        )
}

/// Columns that hold all rows make the table.
proof fn lemma_table(t: Table, cols: Seq<Column>, files: Seq<ParsedFile>, schema: Schema)
    requires
        columns_hold(cols, schema.cards@, rows_so_far(files, files.len(), 0, schema)),
        t.columns@.len() == cols.len(),
        forall|a: int, b: int|
            0 <= a < schema.cards@.len() && 0 <= b < schema.cards@[a].fields@.len()
                ==> #[trigger] named_at(t.columns@, cols, schema.cards@, a, b),
    ensures
        is_table(t, files, schema),
{
    let cards = schema.cards@;
    let rows = rows_so_far(files, files.len(), 0, schema);
    assert forall|a: int, b: int|
        0 <= a < cards.len() && 0 <= b < cards[a].fields@.len() implies ({
        let c = #[trigger] t.columns@[fields_before(cards, a as nat) + b];
        &&& c.0@ == cards[a].fields@[b].name@
        &&& is_column(c.1, cards[a].fields@, b, schema_rows(files, schema, a))
    }) by {
        assert(named_at(t.columns@, cols, cards, a, b));
        assert(is_column(
            cols[fields_before(cards, a as nat) + b],
            cards[a].fields@,
            b,
            rows(a),
        ));
    }
}

/// Parses block after block, with any number of cards to an entity.
pub(crate) fn parse_sequential(files: &[ParsedFile], schema: &Schema) -> (r: Table)
    requires
        all_wf(files@),
        schema.cards@.len() > 0,
    ensures
        is_table(r, files@, *schema),
{
    let mut cols: Vec<Column> = empty_columns(schema);
    let ghost cards = schema.cards@;
    let key: &[u8] = schema.keyword.as_str().as_bytes();
    proof {
        let f = |a: int| Seq::<Line>::empty();
        let g = rows_so_far(files@, 0, 0, *schema);
        assert forall|a: int| 0 <= a < cards.len() implies #[trigger] f(a) == g(a) by {}
        lemma_hold_same(cols@, cards, f, g);
    }
    for fi in 0..files.len()
        invariant
            all_wf(files@),
            cards == schema.cards@,
            cards.len() > 0,
            key@ == vstd::utf8::encode_utf8(schema.keyword@),
            columns_hold(cols@, cards, rows_so_far(files@, fi as nat, 0, *schema)),
    {
        let parsed = &files[fi];
        assert(parsed.wf());
        for bi in 0..parsed.blocks.len()
            invariant
                fi < files@.len(),
                *parsed == files@[fi as int],
                parsed.wf(),
                cards == schema.cards@,
                cards.len() > 0,
                key@ == vstd::utf8::encode_utf8(schema.keyword@),
                columns_hold(cols@, cards, rows_so_far(files@, fi as nat, bi as nat, *schema)),
        {
            let block: &Block = &parsed.blocks[bi];
            assert(lies_in(parsed.blocks@[bi as int], parsed.src@.len()));
            let ghost f = rows_so_far(files@, fi as nat, bi as nat, *schema);
            let ghost g = rows_so_far(files@, fi as nat, (bi + 1) as nat, *schema);
            if same_name(parsed.keyword_name(block), key) {
                parse_block(schema, parsed.body(block), block.format, &mut cols, Ghost(f));
                proof {
                    let h = |a: int|
                        f(a) + block_rows(
                            data_of(body_of(parsed.src@, *block)),
                            block.format,
                            cards.len(),
                            schema.repeat,
                            a,
                        );
                    assert forall|a: int| 0 <= a < cards.len() implies #[trigger] h(a) == g(a) by {}
                    lemma_hold_same(cols@, cards, h, g);
                }
            } else {
                proof {
                    assert forall|a: int| 0 <= a < cards.len() implies #[trigger] f(a) == g(a) by {}
                    lemma_hold_same(cols@, cards, f, g);
                }
            }
        }
        proof {
            let f = rows_so_far(files@, fi as nat, parsed.blocks@.len(), *schema);
            let g = rows_so_far(files@, (fi + 1) as nat, 0, *schema);
            assert forall|a: int| 0 <= a < cards.len() implies #[trigger] f(a) == g(a) by {}
            lemma_hold_same(cols@, cards, f, g);
        }
    }
    let ghost done = cols@;
    let t: Table = named_table(schema, cols);
    proof {
        lemma_table(t, done, files@, *schema);
    }
    t
}

/// Parses the lines of one chunk for a lone card.
fn parse_chunk(schema: &Schema, chunk: &[u8], format: CardFormat) -> (r: Vec<Column>)
    requires
        schema.cards@.len() == 1,
    ensures
        columns_hold(r@, schema.cards@, |a: int| tagged(data_of(chunk@), format)),
{
    let ghost cards = schema.cards@;
    let ghost all = tagged(data_of(chunk@), format);
    let mut cols: Vec<Column> = empty_columns(schema);
    let lines: Vec<&[u8]> = body_lines(chunk);
    assert(slice_views(lines@) == data_of(chunk@));
    proof {
        let f = |a: int| Seq::<Line>::empty();
        let g = |a: int| all.take(0);
        assert forall|a: int| 0 <= a < cards.len() implies #[trigger] f(a) == g(a) by {
            assert(f(a) =~= g(a));
        }
        lemma_hold_same(cols@, cards, f, g);
    }
    let n: usize = lines.len();
    for i in 0..n
        invariant
            n == lines@.len(),
            cards == schema.cards@,
            cards.len() == 1,
            all == tagged(data_of(chunk@), format),
            slice_views(lines@) == data_of(chunk@),
            columns_hold(cols@, cards, |a: int| all.take(i as int)),
    {
        let ghost now = |a: int| all.take(i as int);
        parse_group(schema, &lines, i, format, &mut cols, Ghost(now));
        proof {
            let f = |a: int| now(a).push((lines@[i + a]@, format));
            let g = |a: int| all.take(i + 1);
            assert forall|a: int| 0 <= a < cards.len() implies #[trigger] f(a) == g(a) by {
                assert(data_of(chunk@)[i as int] == lines@[i as int]@);
                assert(f(a) =~= g(a));
            }
            lemma_hold_same(cols@, cards, f, g);
        }
    }
    proof {
        let f = |a: int| all.take(n as int);
        let g = |a: int| all;
        assert forall|a: int| 0 <= a < cards.len() implies #[trigger] f(a) == g(a) by {
            assert(f(a) =~= g(a));
        }
        lemma_hold_same(cols@, cards, f, g);
    }
    cols
}

/// A column with the rows of another behind its own.
proof fn lemma_column_joins(
    c: Column,
    d: Column,
    n: Column,
    fields: Seq<FieldSpec>,
    b: int,
    x: Seq<Line>,
    y: Seq<Line>,
)
    requires
        is_column(c, fields, b, x),
        is_column(d, fields, b, y),
        n.ncols() == c.ncols(),
        forall|t: FieldType| c.is_for(t) == #[trigger] n.is_for(t),
        n.len() == c.len() + d.len(),
        forall|i: int| 0 <= i < c.len() ==> #[trigger] n.same_at(i, c, i),
        forall|i: int| 0 <= i < d.len() ==> #[trigger] n.same_at(c.len() + i, d, i),
    ensures
        is_column(n, fields, b, x + y),
{
    let w = fields[b].count as int;
    let p = x.len() as int;
    let q = y.len() as int;
    let all = x + y;
    assert((p + q) * w == p * w + q * w) by (nonlinear_arith);
    assert forall|r: int, j: int| 0 <= r < all.len() && 0 <= j < w implies n.holds(
        r * w + j,
        #[trigger] crate::deck::rows::field_cell(all[r], fields, b, j),
    ) by {
        let raw = crate::deck::rows::field_cell(all[r], fields, b, j);
        if r < p {
            assert(all[r] == x[r]);
            assert(0 <= r * w + j < p * w) by (nonlinear_arith)
                requires
                    0 <= r < p,
                    0 <= j < w,
            ;
            assert(c.holds(r * w + j, raw));
            assert(n.same_at(r * w + j, c, r * w + j));
        } else {
            let s = r - p;
            assert(all[r] == y[s]);
            assert(0 <= s * w + j < q * w) by (nonlinear_arith)
                requires
                    0 <= s < q,
                    0 <= j < w,
            ;
            assert(r * w + j == p * w + (s * w + j)) by (nonlinear_arith)
                requires
                    s == r - p,
            ;
            assert(d.holds(s * w + j, raw));
            assert(n.same_at(c.len() + (s * w + j), d, s * w + j));
        }
    }
}

/// The rows of a lone repeating card are those of the chunks.
pub proof fn lemma_chunked_table(
    t: Table,
    cols: Seq<Column>,
    files: Seq<ParsedFile>,
    schema: Schema,
    rows: Seq<Line>,
)
    requires
        schema.cards@.len() == 1,
        schema.repeat,
        columns_hold(cols, schema.cards@, |a: int| rows),
        rows == rows_up_to(
            files,
            files.len(),
            0,
            vstd::utf8::encode_utf8(schema.keyword@),
            1,
            true,
            0,
        ),
        t.columns@.len() == cols.len(),
        forall|a: int, b: int|
            0 <= a < schema.cards@.len() && 0 <= b < schema.cards@[a].fields@.len()
                ==> #[trigger] named_at(t.columns@, cols, schema.cards@, a, b),
    ensures
        is_table(t, files, schema),
{
    let f = |a: int| rows;
    let g = rows_so_far(files, files.len(), 0, schema);
    assert forall|a: int| 0 <= a < schema.cards@.len() implies #[trigger] f(a) == g(a) by {}
    lemma_hold_same(cols, schema.cards@, f, g);
    lemma_table(t, cols, files, schema);
}

/// Parses chunk by chunk into columns of their own, and joins these.
pub(crate) fn parse_parallel_partials(files: &[ParsedFile], schema: &Schema) -> (r: Table)
    requires
        all_wf(files@),
        schema.cards@.len() == 1,
        schema.repeat,
    ensures
        is_table(r, files@, *schema),
{
    let chunks: Vec<(&[u8], CardFormat)> = collect_chunks(files, schema.keyword.as_str());
    let ghost cards = schema.cards@;
    let mut cols: Vec<Column> = empty_columns(schema);
    proof {
        let f = |a: int| Seq::<Line>::empty();
        let g = |a: int| chunk_rows(chunks@, 0);
        lemma_hold_same(cols@, cards, f, g);
        assert(fields_before(cards, 0) == 0);
        reveal_with_fuel(fields_before, 2);
    }
    let width: usize = cols.len();
    for i in 0..chunks.len()
        invariant
            cards == schema.cards@,
            cards.len() == 1,
            width == cols@.len(),
            width == cards[0].fields@.len(),
            fields_before(cards, 0) == 0,
            columns_hold(cols@, cards, |a: int| chunk_rows(chunks@, i as nat)),
    {
        let (chunk, format) = chunks[i];
        let mut part: Vec<Column> = parse_chunk(schema, chunk, format);
        let ghost x = chunk_rows(chunks@, i as nat);
        let ghost y = tagged(data_of(chunk@), format);
        let ghost start = cols@;
        let ghost all = part@;
        proof {
            assert(all.len() == width);
            assert forall|b: int| 0 <= b < width implies is_column(
                #[trigger] start[b],
                cards[0].fields@,
                b,
                x,
            ) by {
                assert(start[fields_before(cards, 0) + b] == start[b]);
            }
            assert forall|b: int| 0 <= b < width implies is_column(
                #[trigger] all[b],
                cards[0].fields@,
                b,
                y,
            ) by {
                assert(all[fields_before(cards, 0) + b] == all[b]);
            }
            assert(all.skip(0) =~= all);
        }
        for c in 0..width
            invariant
                cards.len() == 1,
                width == cols@.len(),
                width == start.len(),
                width == all.len(),
                width == cards[0].fields@.len(),
                part@ == all.skip(c as int),
                forall|b: int|
                    0 <= b < width ==> is_column(#[trigger] start[b], cards[0].fields@, b, x),
                forall|b: int|
                    0 <= b < width ==> is_column(#[trigger] all[b], cards[0].fields@, b, y),
                forall|b: int| c <= b < width ==> cols@[b] == #[trigger] start[b],
                forall|b: int|
                    0 <= b < c ==> is_column(#[trigger] cols@[b], cards[0].fields@, b, x + y),
        {
            let from: Column = part.remove(0);
            let ghost before = cols@;
            proof {
                assert(from == all[c as int]);
                assert(before[c as int] == start[c as int]);
                assert(is_column(start[c as int], cards[0].fields@, c as int, x));
                let t = cards[0].fields@[c as int].ty;
                assert(before[c as int].is_for(t) && from.is_for(t));
                assert(part@ =~= all.skip(c + 1));
            }
            cols[c].extend(from);
            proof {
                lemma_column_joins(
                    before[c as int],
                    from,
                    cols@[c as int],
                    cards[0].fields@,
                    c as int,
                    x,
                    y,
                );
                assert forall|b: int| 0 <= b < c + 1 implies is_column(
                    #[trigger] cols@[b],
                    cards[0].fields@,
                    b,
                    x + y,
                ) by {
                    if b < c {
                        assert(cols@[b] == before[b]);
                    }
                }
            }
        }
        proof {
            let f = |a: int| chunk_rows(chunks@, (i + 1) as nat);
            assert(chunks@[i as int] == (chunk, format));
            assert(chunk_rows(chunks@, (i + 1) as nat) == x + y);
            assert forall|a: int, b: int|
                0 <= a < cards.len() && 0 <= b < cards[a].fields@.len() implies is_column(
                #[trigger] cols@[fields_before(cards, a as nat) + b],
                cards[a].fields@,
                b,
                f(a),
            ) by {
                assert(is_column(cols@[b], cards[0].fields@, b, x + y));
            }
            assert(columns_hold(cols@, cards, f));
        }
    }
    let ghost done = cols@;
    let t: Table = named_table(schema, cols);
    proof {
        lemma_chunked_table(t, done, files@, *schema, chunk_rows(chunks@, chunks@.len()));
    }
    t
}

} // verus!
