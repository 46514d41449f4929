//! Which lines of a keyword make which rows, and where the rows stand in a table.

use crate::deck::column::{Column, Table};
use crate::deck::field::{int_or_zero, text_in_field};
use crate::deck::file::{count_lines, same_word, upper, Block, CardFormat, ParsedFile};
use crate::deck::lines::{
    data_of, kept, lemma_indent, lemma_kept_add, lemma_split_at, lemma_split_front, skippable,
    split, stripped,
};
use crate::deck::rows::{
    block_rows, field_cell, fields_before, is_column, is_table, rows_up_to, schema_rows, Line,
};
use crate::deck::schema::{Card, FieldSpec, Schema};
use vstd::prelude::*;

verus! {

/// Lines with a line end behind each.
pub open spec fn with_ends(lines: Seq<Seq<u8>>) -> Seq<u8>
    decreases lines.len(),
{
    if lines.len() == 0 {
        Seq::empty()
    } else {
        lines[0] + seq![10u8] + with_ends(lines.drop_first())
    }
}

/// Each is one line.
pub open spec fn are_lines(lines: Seq<Seq<u8>>) -> bool {
    forall|i: int| 0 <= i < lines.len() ==> !(#[trigger] lines[i]).contains(10)
}

/// The line has something on it that is neither a blank nor a tab, and the first such
/// byte neither begins a comment nor ends the line.
pub open spec fn has_data(line: Seq<u8>) -> bool {
    exists|k: int|
        0 <= k < line.len() && (#[trigger] line[k]) != 32 && line[k] != 9 && line[k] != 36 && line[k]
            != 13 && line[k] != 10 && forall|i: int|
            0 <= i < k ==> (#[trigger] line[i]) == 32 || line[i] == 9
}

/// The first byte of the line that is neither a blank nor a tab begins a comment.
pub open spec fn is_comment(line: Seq<u8>) -> bool {
    exists|k: int|
        0 <= k < line.len() && (#[trigger] line[k]) == 36 && forall|i: int|
            0 <= i < k ==> (#[trigger] line[i]) == 32 || line[i] == 9
}

/// There is nothing on the line but blanks and tabs.
pub open spec fn is_empty(line: Seq<u8>) -> bool {
    forall|i: int| 0 <= i < line.len() ==> (#[trigger] line[i]) == 32 || line[i] == 9
}

proof fn lemma_kept_data(line: Seq<u8>)
    ensures
        has_data(line) ==> !skippable(line),
        is_comment(line) ==> skippable(line),
        is_empty(line) ==> skippable(line),
{
    if has_data(line) {
        let k = choose|k: int|
            0 <= k < line.len() && (#[trigger] line[k]) != 32 && line[k] != 9 && line[k] != 36
                && line[k] != 13 && line[k] != 10 && forall|i: int|
                0 <= i < k ==> (#[trigger] line[i]) == 32 || line[i] == 9;
        lemma_indent(line, k);
        lemma_not_stripped(line.skip(k));
    }
    if is_comment(line) {
        let k = choose|k: int|
            0 <= k < line.len() && (#[trigger] line[k]) == 36 && forall|i: int|
                0 <= i < k ==> (#[trigger] line[i]) == 32 || line[i] == 9;
        lemma_indent(line, k);
    }
    if is_empty(line) {
        lemma_indent(line, line.len() as int);
    }
}

proof fn lemma_not_stripped(s: Seq<u8>)
    requires
        s.len() > 0,
        s[0] != 10,
        s[0] != 13,
    ensures
        stripped(s).len() > 0,
    decreases s.len(),
{
    if s.len() > 1 {
        lemma_not_stripped(s.drop_last());
    }
}

proof fn lemma_body_split(lines: Seq<Seq<u8>>)
    requires
        are_lines(lines),
    ensures
        data_of(with_ends(lines)) == kept(lines),
    decreases lines.len(),
{
    let none = Seq::<u8>::empty();
    lemma_split_front(none, 10, 0);
    lemma_indent(none, 0);
    assert(skippable(none));
    if lines.len() == 0 {
        assert(split(with_ends(lines), 10) =~= seq![none]);
        assert(seq![none].drop_last() =~= Seq::<Seq<u8>>::empty());
        assert(seq![none].last() == none);
        reveal_with_fuel(kept, 3);
        assert(kept(seq![none]) =~= kept(lines));
    } else {
        let a = lines[0];
        let t = lines.drop_first();
        assert(are_lines(t)) by {
            assert forall|i: int| 0 <= i < t.len() implies !(#[trigger] t[i]).contains(10) by {
                assert(t[i] == lines[i + 1]);
            }
        }
        assert forall|k: int| 0 <= k < a.len() implies a[k] != 10 by {
            if a[k] == 10 {
                assert(a.contains(10));
            }
        }
        lemma_body_split(t);
        lemma_split_front(a, 10, a.len() as int);
        lemma_split_at(a, 10, with_ends(t));
        lemma_kept_add(seq![a], split(with_ends(t), 10));
        lemma_kept_add(seq![a], t);
        assert(seq![a] + t =~= lines);
    }
}

/// The data lines of a body are its lines, in order.
pub proof fn law_data_lines_are_the_lines(lines: Seq<Seq<u8>>)
    requires
        are_lines(lines),
        forall|i: int| 0 <= i < lines.len() ==> has_data(#[trigger] lines[i]),
    ensures
        data_of(with_ends(lines)) == lines,
    decreases lines.len(),
{
    lemma_body_split(lines);
    lemma_all_kept(lines);
}

proof fn lemma_all_kept(lines: Seq<Seq<u8>>)
    requires
        forall|i: int| 0 <= i < lines.len() ==> has_data(#[trigger] lines[i]),
    ensures
        kept(lines) == lines,
    decreases lines.len(),
{
    if lines.len() > 0 {
        let t = lines.drop_last();
        assert forall|i: int| 0 <= i < t.len() implies has_data(#[trigger] t[i]) by {
            assert(t[i] == lines[i]);
        }
        lemma_all_kept(t);
        assert(has_data(lines[lines.len() - 1]));
        lemma_kept_data(lines.last());
        assert(t.push(lines.last()) =~= lines);
    } else {
        assert(kept(lines) =~= lines);
    }
}

/// A comment line, or one with nothing on it, changes nothing, wherever it stands.
pub proof fn law_comments_change_nothing(a: Seq<Seq<u8>>, line: Seq<u8>, b: Seq<Seq<u8>>)
    requires
        are_lines(a),
        are_lines(b),
        !line.contains(10),
        is_comment(line) || is_empty(line),
    ensures
        data_of(with_ends(a.push(line) + b)) == data_of(with_ends(a + b)),
{
    let x = a.push(line) + b;
    assert(are_lines(x)) by {
        assert forall|i: int| 0 <= i < x.len() implies !(#[trigger] x[i]).contains(10) by {
            if i < a.len() {
                assert(x[i] == a[i]);
            } else if i > a.len() {
                assert(x[i] == b[i - a.len() - 1]);
            }
        }
    }
    assert(are_lines(a + b)) by {
        assert forall|i: int| 0 <= i < (a + b).len() implies !(#[trigger] (a + b)[i]).contains(
            10,
        ) by {
            if i < a.len() {
                assert((a + b)[i] == a[i]);
            } else {
                assert((a + b)[i] == b[i - a.len()]);
            }
        }
    }
    lemma_body_split(x);
    lemma_body_split(a + b);
    lemma_kept_add(a.push(line), b);
    lemma_kept_add(a, b);
    lemma_kept_data(line);
    assert(a.push(line).drop_last() =~= a);
}

/// Names are the same word when they are the same but for the case of ASCII letters.
pub proof fn law_case_does_not_matter(a: Seq<u8>, b: Seq<u8>)
    ensures
        same_word(a, b) <==> a.len() == b.len() && forall|i: int|
            0 <= i < a.len() ==> (#[trigger] a[i]) == b[i] || (65 <= a[i] <= 90 && b[i] == a[i]
                + 32) || (97 <= a[i] <= 122 && b[i] == a[i] - 32),
{
    assert forall|i: int| 0 <= i < a.len() && a.len() == b.len() implies (upper(
        #[trigger] a[i],
    ) == upper(b[i]) <==> (a[i] == b[i] || (65 <= a[i] <= 90 && b[i] == a[i] + 32) || (97 <= a[i]
        <= 122 && b[i] == a[i] - 32))) by {}
    if same_word(a, b) {
        assert forall|i: int| 0 <= i < a.len() implies (#[trigger] a[i]) == b[i] || (65 <= a[i]
            <= 90 && b[i] == a[i] + 32) || (97 <= a[i] <= 122 && b[i] == a[i] - 32) by {
            assert(upper(a[i]) == upper(b[i]));
        }
    }
}

/// Every line of a repeating keyword goes to one row of one card: the lines go round the
/// cards, and an entity that is not complete has no row. A keyword that does not repeat
/// has one entity in a block, of its first lines.
pub proof fn law_lines_go_round_the_cards(
    lines: Seq<Seq<u8>>,
    format: CardFormat,
    k: nat,
    i: int,
)
    requires
        k > 0,
        0 <= i < lines.len(),
    ensures
        ({
            let c = i % k as int;
            let g = i / k as int;
            let r = block_rows(lines, format, k, true, c);
            let once = block_rows(lines, format, k, false, c);
            &&& lines.len() - lines.len() % k == r.len() * k
            &&& i < r.len() * k ==> 0 <= g < r.len() && r[g] == (lines[i], format)
            &&& once.len() == (if lines.len() >= k {
                1nat
            } else {
                0
            })
            &&& once.len() == 1 && i < k ==> once[0] == (lines[i], format)
        }),
{
    let c = i % k as int;
    let g = i / k as int;
    let n = lines.len() / k;
    assert(lines.len() == n * k + lines.len() % k && i == g * k + c && 0 <= c < k) by (nonlinear_arith)
        requires
            k > 0,
            n == lines.len() / k,
            g == i / k as int,
            c == i % k as int,
    ;
    if i < n * k {
        assert(0 <= g < n) by (nonlinear_arith)
            requires
                0 <= i,
                i == g * k + c,
                i < n * k,
                0 <= c < k,
                k > 0,
        ;
    }
    assert(0 * k == 0);
    if i < k {
        assert(i % k as int == i) by (nonlinear_arith)
            requires
                0 <= i < k,
        ;
    }
}

/// The rows of a keyword in two lists of files are those in the one, then those in the
/// other.
pub proof fn law_files_add_up(a: Seq<ParsedFile>, b: Seq<ParsedFile>, schema: Schema, c: int)
    ensures
        schema_rows(a + b, schema, c) == schema_rows(a, schema, c) + schema_rows(b, schema, c),
{
    let key = vstd::utf8::encode_utf8(schema.keyword@);
    let k = schema.cards@.len();
    lemma_rows_tail(a, b, b.len(), 0, key, k, schema.repeat, c);
}

proof fn lemma_rows_front(
    a: Seq<ParsedFile>,
    b: Seq<ParsedFile>,
    fi: nat,
    bi: nat,
    key: Seq<u8>,
    k: nat,
    repeat: bool,
    c: int,
)
    requires
        fi < a.len() || (fi == a.len() && bi == 0),
    ensures
        rows_up_to(a + b, fi, bi, key, k, repeat, c) == rows_up_to(a, fi, bi, key, k, repeat, c),
    decreases fi, bi,
{
    if bi > 0 {
        assert((a + b)[fi as int] == a[fi as int]);
        lemma_rows_front(a, b, fi, (bi - 1) as nat, key, k, repeat, c);
    } else if fi > 0 {
        assert((a + b)[fi - 1] == a[fi - 1]);
        lemma_rows_front(a, b, (fi - 1) as nat, a[fi - 1].blocks@.len(), key, k, repeat, c);
    }
}

proof fn lemma_rows_tail(
    a: Seq<ParsedFile>,
    b: Seq<ParsedFile>,
    fi: nat,
    bi: nat,
    key: Seq<u8>,
    k: nat,
    repeat: bool,
    c: int,
)
    requires
        fi < b.len() || (fi == b.len() && bi == 0),
    ensures
        rows_up_to(a + b, a.len() + fi, bi, key, k, repeat, c) == rows_up_to(
            a,
            a.len(),
            0,
            key,
            k,
            repeat,
            c,
        ) + rows_up_to(b, fi, bi, key, k, repeat, c),
    decreases fi, bi,
{
    let n = a.len();
    let head = rows_up_to(a, n, 0, key, k, repeat, c);
    let whole = rows_up_to(a + b, n + fi, bi, key, k, repeat, c);
    let tail = rows_up_to(b, fi, bi, key, k, repeat, c);
    if bi > 0 {
        assert((a + b)[(n + fi) as int] == b[fi as int]);
        lemma_rows_tail(a, b, fi, (bi - 1) as nat, key, k, repeat, c);
        assert(whole =~= head + tail);
    } else if fi > 0 {
        assert((a + b)[n + fi - 1] == b[fi - 1]);
        lemma_rows_tail(a, b, (fi - 1) as nat, b[fi - 1].blocks@.len(), key, k, repeat, c);
        assert(whole =~= head + tail);
    } else {
        lemma_rows_front(a, b, n, 0, key, k, repeat, c);
        assert(whole =~= head + tail);
    }
}

/// The rows of a keyword in one file: those of its blocks of that name, in order, each in
/// its own layout. The blocks of other names have none.
pub proof fn law_blocks_add_up(f: ParsedFile, g: ParsedFile, last: Block, schema: Schema, c: int)
    requires
        g.src == f.src,
        g.blocks@ == f.blocks@.push(last),
    ensures
        f.blocks@.len() == 0 ==> schema_rows(seq![f], schema, c).len() == 0,
        schema_rows(seq![g], schema, c) == (if same_word(
            f.src@.subrange(last.name_start as int, last.name_end as int),
            vstd::utf8::encode_utf8(schema.keyword@),
        ) {
            schema_rows(seq![f], schema, c) + block_rows(
                data_of(f.src@.subrange(last.body_start as int, last.body_end as int)),
                last.format,
                schema.cards@.len(),
                schema.repeat,
                c,
            )
        } else {
            schema_rows(seq![f], schema, c)
        }),
{
    let key = vstd::utf8::encode_utf8(schema.keyword@);
    let k = schema.cards@.len();
    let n = f.blocks@.len();
    reveal_with_fuel(rows_up_to, 3);
    assert(seq![f][0] == f && seq![g][0] == g);
    assert(g.blocks@.take(n as int) =~= f.blocks@);
    lemma_same_blocks(f, g, n, key, k, schema.repeat, c);
    assert(g.blocks@[n as int] == last);
}

proof fn lemma_same_blocks(
    f: ParsedFile,
    g: ParsedFile,
    n: nat,
    key: Seq<u8>,
    k: nat,
    repeat: bool,
    c: int,
)
    requires
        g.src == f.src,
        n <= f.blocks@.len() <= g.blocks@.len(),
        g.blocks@.take(f.blocks@.len() as int) == f.blocks@,
    ensures
        rows_up_to(seq![g], 0, n, key, k, repeat, c) == rows_up_to(
            seq![f],
            0,
            n,
            key,
            k,
            repeat,
            c,
        ),
    decreases n,
{
    if n > 0 {
        lemma_same_blocks(f, g, (n - 1) as nat, key, k, repeat, c);
        assert(g.blocks@[n - 1] == g.blocks@.take(f.blocks@.len() as int)[n - 1]);
        assert(seq![f][0] == f && seq![g][0] == g);
    }
}

/// The names of the fields of cards, card by card.
pub open spec fn field_names(cards: Seq<Card>) -> Seq<Seq<char>> {
    Seq::new(
        cards.len(),
        |a: int| Seq::new(cards[a].fields@.len(), |b: int| cards[a].fields@[b].name@),
    ).flatten()
}

proof fn lemma_names_front(cards: Seq<Card>, n: nat)
    requires
        n <= cards.len(),
    ensures
        field_names(cards.take(n as int)).len() == fields_before(cards, n),
        forall|a: int, b: int|
            0 <= a < n && 0 <= b < cards[a].fields@.len() ==> field_names(
                cards.take(n as int),
            )[fields_before(cards, a as nat) + b] == #[trigger] cards[a].fields@[b].name@,
    decreases n,
{
    let lists = |s: Seq<Card>|
        Seq::new(
            s.len(),
            |a: int| Seq::new(s[a].fields@.len(), |b: int| s[a].fields@[b].name@),
        );
    if n > 0 {
        let m = (n - 1) as nat;
        lemma_names_front(cards, m);
        let x = lists(cards.take(m as int));
        let last = Seq::new(
            cards[m as int].fields@.len(),
            |b: int| cards[m as int].fields@[b].name@,
        );
        assert(lists(cards.take(n as int)) =~= x.push(last)) by {
            assert forall|a: int| 0 <= a < n implies #[trigger] lists(cards.take(n as int))[a]
                =~= x.push(last)[a] by {}
        }
        x.lemma_flatten_push(last);
        let f = field_names(cards.take(n as int));
        let g = field_names(cards.take(m as int));
        assert(f =~= g + last);
        assert forall|a: int, b: int| 0 <= a < n && 0 <= b < cards[a].fields@.len() implies f[
        fields_before(cards, a as nat) + b] == #[trigger] cards[a].fields@[b].name@ by {
            if a < m {
                crate::deck::rows::lemma_fields_before(cards, a as nat, m);
                assert(f[fields_before(cards, a as nat) + b] == g[fields_before(cards, a as nat)
                    + b]);
            }
        }
    } else {
        assert(lists(cards.take(0)) =~= Seq::empty());
    }
}

/// The columns of a table have the names of the fields, card by card and field by field.
pub proof fn law_columns_are_the_fields(t: Table, files: Seq<ParsedFile>, schema: Schema)
    requires
        is_table(t, files, schema),
    ensures
        Seq::new(t.columns@.len(), |i: int| t.columns@[i].0@) == field_names(schema.cards@),
{
    let cards = schema.cards@;
    let n = cards.len();
    let names = Seq::new(t.columns@.len(), |i: int| t.columns@[i].0@);
    lemma_names_front(cards, n);
    assert(cards.take(n as int) =~= cards);
    let f = field_names(cards);
    assert forall|i: int| 0 <= i < names.len() implies names[i] == f[i] by {
        let (a, b) = lemma_field_at(cards, n, i);
        assert(cards[a].fields@[b].name@ == f[fields_before(cards, a as nat) + b]);
        assert(t.columns@[fields_before(cards, a as nat) + b].0@ == cards[a].fields@[b].name@);
    }
    assert(names =~= f);
}

proof fn lemma_field_at(cards: Seq<Card>, n: nat, i: int) -> (r: (int, int))
    requires
        n <= cards.len(),
        0 <= i < fields_before(cards, n),
    ensures
        0 <= r.0 < n,
        0 <= r.1 < cards[r.0].fields@.len(),
        fields_before(cards, r.0 as nat) + r.1 == i,
    decreases n,
{
    let m = (n - 1) as nat;
    if i < fields_before(cards, m) {
        lemma_field_at(cards, m, i)
    } else {
        (m as int, i - fields_before(cards, m))
    }
}

/// The values of a column stand row by row: those of one row are behind one another, and
/// are what the cells of its line hold, as integers, as bytes or as texts by the type of
/// the field. There are as many rows as lines of the card.
pub proof fn law_rows_stand_one_behind_the_other(
    c: Column,
    fields: Seq<FieldSpec>,
    b: int,
    rows: Seq<Line>,
    r: int,
)
    requires
        is_column(c, fields, b, rows),
        0 <= r < rows.len(),
    ensures
        ({
            let n = fields[b].count as int;
            let cell = |j: int| field_cell(rows[r], fields, b, j);
            match c {
                Column::Int { data, ncols } => {
                    &&& fields[b].ty == crate::deck::schema::FieldType::Int
                    &&& ncols == n
                    &&& data@.len() == rows.len() * n
                    &&& data@.subrange(r * n, r * n + n) == Seq::new(
                        n as nat,
                        |j: int| int_or_zero(cell(j)),
                    )
                },
                Column::Float { data, ncols } => {
                    &&& fields[b].ty == crate::deck::schema::FieldType::Float
                    &&& ncols == n
                    &&& data@.len() == rows.len() * n
                    &&& forall|j: int| 0 <= j < n ==> (#[trigger] data@[r * n + j])@ == cell(j)
                },
                Column::Str { data, ncols } => {
                    &&& fields[b].ty == crate::deck::schema::FieldType::Str
                    &&& ncols == n
                    &&& data@.len() == rows.len() * n
                    &&& forall|j: int|
                        0 <= j < n ==> (#[trigger] data@[r * n + j])@ == text_in_field(cell(j))
                },
            }
        }),
{
    let n = fields[b].count as int;
    let cell = |j: int| field_cell(rows[r], fields, b, j);
    assert(0 <= r * n && r * n + n <= rows.len() * n) by (nonlinear_arith)
        requires
            0 <= r < rows.len(),
            n >= 0,
    ;
    assert forall|j: int| 0 <= j < n implies c.holds(r * n + j, #[trigger] cell(j)) by {
        assert(c.holds(r * n + j, field_cell(rows[r], fields, b, j)));
    }
    match c {
        Column::Int { data, ncols } => {
            let want = Seq::new(n as nat, |j: int| int_or_zero(cell(j)));
            assert forall|j: int| 0 <= j < n implies data@.subrange(r * n, r * n + n)[j]
                == want[j] by {
                assert(c.holds(r * n + j, cell(j)));
            }
            assert(data@.subrange(r * n, r * n + n) =~= want);
        },
        Column::Float { data, ncols } => {
            assert forall|j: int| 0 <= j < n implies (#[trigger] data@[r * n + j])@ == cell(j) by {
                assert(c.holds(r * n + j, cell(j)));
            }
        },
        Column::Str { data, ncols } => {
            assert forall|j: int| 0 <= j < n implies (#[trigger] data@[r * n + j])@
                == text_in_field(cell(j)) by {
                assert(c.holds(r * n + j, cell(j)));
            }
        },
    }
}

/// Column `fields_before + b` of a table, where the fields of the cards in front are as
/// many as `fields_before` says, holds field `b` of the lines of card `a`.
pub proof fn law_table_holds_rows(
    t: Table,
    files: Seq<ParsedFile>,
    schema: Schema,
    a: int,
    b: int,
)
    requires
        is_table(t, files, schema),
        0 <= a < schema.cards@.len(),
        0 <= b < schema.cards@[a].fields@.len(),
    ensures
        ({
            let i = field_names(schema.cards@.take(a)).len() + b;
            &&& t.columns@[i].0@ == schema.cards@[a].fields@[b].name@
            &&& is_column(
                t.columns@[i].1,
                schema.cards@[a].fields@,
                b,
                schema_rows(files, schema, a),
            )
        }),
{
    lemma_names_front(schema.cards@, a as nat);
    let c = t.columns@[fields_before(schema.cards@, a as nat) + b];
}

/// The line of a place in a text is one behind the number of line ends in front of it.
pub proof fn law_lines_are_counted(lines: Seq<Seq<u8>>, rest: Seq<u8>)
    requires
        are_lines(lines),
        !rest.contains(10),
    ensures
        count_lines(with_ends(lines) + rest) == lines.len(),
    decreases lines.len(), rest.len(),
{
    if lines.len() == 0 {
        assert(with_ends(lines) + rest =~= rest);
        lemma_no_ends(rest);
    } else {
        let a = lines[0];
        let t = lines.drop_first();
        assert(are_lines(t)) by {
            assert forall|i: int| 0 <= i < t.len() implies !(#[trigger] t[i]).contains(10) by {
                assert(t[i] == lines[i + 1]);
            }
        }
        law_lines_are_counted(t, rest);
        lemma_no_ends(a);
        let x = a + seq![10u8];
        assert(x.drop_last() =~= a);
        lemma_count_add(x, with_ends(t) + rest);
        assert(with_ends(lines) + rest =~= x + (with_ends(t) + rest));
    }
}

proof fn lemma_no_ends(s: Seq<u8>)
    requires
        !s.contains(10),
    ensures
        count_lines(s) == 0,
    decreases s.len(),
{
    if s.len() > 0 {
        assert(s.contains(s.last()));
        assert(!s.drop_last().contains(10)) by {
            if s.drop_last().contains(10) {
                let i = s.drop_last().index_of(10);
                assert(s[i] == 10);
            }
        }
        lemma_no_ends(s.drop_last());
    }
}

proof fn lemma_count_add(a: Seq<u8>, b: Seq<u8>)
    ensures
        count_lines(a + b) == count_lines(a) + count_lines(b),
    decreases b.len(),
{
    if b.len() == 0 {
        assert(a + b =~= a);
    } else {
        assert((a + b).drop_last() =~= a + b.drop_last());
        lemma_count_add(a, b.drop_last());
    }
}

} // verus!
