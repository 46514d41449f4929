//! What the fields of a card are, whichever way its line is laid out.

use crate::deck::file::CardFormat;
use crate::deck::lines::{lemma_split_at, lemma_split_front, split, stripped};
use crate::deck::rows::{
    columns_before, field_cell, field_width, is_free, piece, span, values_before, Line,
};
use crate::deck::schema::FieldSpec;
use crate::deck::typed::{mat_from, parts_in, plain_field, plain_width};
use crate::deck::field::int_or_zero;
use crate::text::{text_of, trimmed};
use vstd::prelude::*;
use vstd::seq_lib::lemma_flatten_concat;

verus! {

/// The columns of one value: as wide as the field says, and twice as wide on a long
/// card.
pub open spec fn cell_columns(f: FieldSpec, format: CardFormat) -> int {
    match format {
        CardFormat::Fixed => f.width as int,
        CardFormat::Long => f.width + f.width,
        CardFormat::Free => 0,
    }
}

/// A text for every value of every field, none wider than its columns. Behind a text
/// that does not fill its columns there is nothing.
pub open spec fn fills_card(
    texts: Seq<Seq<Seq<u8>>>,
    fields: Seq<FieldSpec>,
    format: CardFormat,
) -> bool {
    &&& texts.len() == fields.len()
    &&& forall|b: int| 0 <= b < fields.len() ==> (#[trigger] texts[b]).len() == fields[b].count
    &&& forall|b: int, j: int|
        0 <= b < fields.len() && 0 <= j < fields[b].count ==> (#[trigger] texts[b][j]).len()
            <= cell_columns(fields[b], format)
    &&& forall|b: int, j: int, c: int, k: int|
        #![trigger texts[b][j], texts[c][k]]
        0 <= b <= c < fields.len() && 0 <= j < fields[b].count && 0 <= k < fields[c].count && (b < c
            || j < k) && texts[b][j].len() < cell_columns(fields[b], format) ==> texts[c][k].len()
            == 0
}

/// All texts fill their columns.
pub open spec fn is_full(
    texts: Seq<Seq<Seq<u8>>>,
    fields: Seq<FieldSpec>,
    format: CardFormat,
) -> bool {
    forall|b: int, j: int|
        0 <= b < fields.len() && 0 <= j < fields[b].count ==> (#[trigger] texts[b][j]).len()
            == cell_columns(fields[b], format)
}

/// A run of bytes without line ends at its end, then line ends.
pub open spec fn ends_lines(b: Seq<u8>) -> bool {
    forall|i: int| 0 <= i < b.len() ==> (#[trigger] b[i]) == 10 || b[i] == 13
}

/// Line ends behind a line do not belong to it.
pub proof fn law_line_ends_do_not_count(s: Seq<u8>, tail: Seq<u8>)
    requires
        ends_lines(tail),
        s.len() == 0 || (s.last() != 10 && s.last() != 13),
    ensures
        stripped(s + tail) == s,
    decreases tail.len(),
{
    if tail.len() == 0 {
        assert(s + tail =~= s);
    } else {
        let t = tail.drop_last();
        assert(tail.last() == tail[tail.len() - 1]);
        assert((s + tail).last() == tail.last());
        assert((s + tail).drop_last() =~= s + t);
        assert(ends_lines(t)) by {
            assert forall|i: int| 0 <= i < t.len() implies (#[trigger] t[i]) == 10 || t[i] == 13 by {
                assert(t[i] == tail[i]);
            }
        }
        law_line_ends_do_not_count(s, t);
    }
}

proof fn lemma_flatten_at<A>(s: Seq<Seq<A>>, i: int)
    requires
        0 <= i < s.len(),
    ensures
        s.flatten() == s.take(i).flatten() + s[i] + s.skip(i + 1).flatten(),
{
    let front = s.take(i);
    let rest = s.skip(i);
    assert(s =~= front + rest);
    lemma_flatten_concat(front, rest);
    assert(rest.first() == s[i]);
    assert(rest.drop_first() =~= s.skip(i + 1));
    assert(s.flatten() =~= front.flatten() + s[i] + s.skip(i + 1).flatten());
}

/// The bytes of the first `n` texts of one width: as many as they fill, and all where
/// none is short.
proof fn lemma_run_len(t: Seq<Seq<u8>>, n: nat, w: int)
    requires
        n <= t.len(),
        forall|j: int| 0 <= j < n ==> (#[trigger] t[j]).len() <= w,
    ensures
        t.take(n as int).flatten().len() <= n * w,
        (forall|j: int| 0 <= j < n ==> (#[trigger] t[j]).len() == w) ==> t.take(
            n as int,
        ).flatten().len() == n * w,
    decreases n,
{
    if n == 0 {
        assert(0 * w == 0);
    } else {
        let m = (n - 1) as nat;
        lemma_run_len(t, m, w);
        assert(t.take(n as int) =~= t.take(m as int).push(t[m as int]));
        t.take(m as int).lemma_flatten_push(t[m as int]);
        assert(n * w == m * w + w) by (nonlinear_arith)
            requires
                n == m + 1,
        ;
        assert(t[m as int].len() <= w);
    }
}

/// The bytes of the first `n` fields.
proof fn lemma_front_len(
    texts: Seq<Seq<Seq<u8>>>,
    fields: Seq<FieldSpec>,
    format: CardFormat,
    n: nat,
)
    requires
        format != CardFormat::Free,
        fills_card(texts, fields, format),
        n <= fields.len(),
    ensures
        texts.take(n as int).flatten().flatten().len() <= columns_before(fields, n, format),
        (forall|b: int, j: int|
            0 <= b < n && 0 <= j < fields[b].count ==> (#[trigger] texts[b][j]).len()
                == cell_columns(fields[b], format)) ==> texts.take(
            n as int,
        ).flatten().flatten().len() == columns_before(fields, n, format),
    decreases n,
{
    if n > 0 {
        let m = (n - 1) as nat;
        lemma_front_len(texts, fields, format, m);
        let t = texts[m as int];
        let w = cell_columns(fields[m as int], format);
        assert(w == field_width(fields[m as int], format));
        assert forall|j: int| 0 <= j < t.len() implies (#[trigger] t[j]).len() <= w by {
            assert(texts[m as int][j].len() <= w);
        }
        assert(texts[m as int].len() == fields[m as int].count);
        lemma_run_len(t, t.len(), w);
        assert(t.take(t.len() as int) =~= t);
        assert(texts.take(n as int) =~= texts.take(m as int).push(t));
        texts.take(m as int).lemma_flatten_push(t);
        lemma_flatten_concat(texts.take(m as int).flatten(), t);
        if forall|b: int, j: int|
            0 <= b < n && 0 <= j < fields[b].count ==> (#[trigger] texts[b][j]).len()
                == cell_columns(fields[b], format) {
            assert forall|j: int| 0 <= j < t.len() implies (#[trigger] t[j]).len() == w by {
                assert(texts[m as int][j].len() == w);
            }
        }
    }
}

/// Without commas a line is cut by columns: a line made of texts that fill the columns
/// of a card, one behind the other, reads as these texts, value by value and field by
/// field. Where the line ends early the text at its end is what is left, and nothing is
/// behind it; what stands behind the last column does not count.
pub proof fn law_fixed_line_reads_back(
    texts: Seq<Seq<Seq<u8>>>,
    fields: Seq<FieldSpec>,
    format: CardFormat,
    rest: Seq<u8>,
    tail: Seq<u8>,
    b: int,
    j: int,
)
    requires
        format != CardFormat::Free,
        fills_card(texts, fields, format),
        rest.len() == 0 || is_full(texts, fields, format),
        ends_lines(tail),
        ({
            let s = texts.flatten().flatten() + rest;
            &&& s.len() == 0 || (s.last() != 10 && s.last() != 13)
            &&& !s.contains(44)
        }),
        0 <= b < fields.len(),
        0 <= j < fields[b].count,
    ensures
        field_cell((texts.flatten().flatten() + rest + tail, format), fields, b, j) == texts[b][j],
{
    let s = texts.flatten().flatten() + rest;
    let line = (s + tail, format);
    law_line_ends_do_not_count(s, tail);
    assert(stripped(line.0) == s);
    assert(!is_free(line));
    let w = field_width(fields[b], format);
    assert(w == cell_columns(fields[b], format));
    let at = columns_before(fields, b as nat, format) + j * w;
    let x = texts[b][j];
    assert(texts[b].len() == fields[b].count);
    assert(x.len() <= w);
    lemma_text_place(texts, b, j);
    lemma_place_len(texts, fields, format, b, j);
    let p = in_front(texts, b, j);
    let y = behind(texts, b, j) + rest;
    assert(s =~= p + x + y);
    if short_before(texts, fields, format, b, j) {
        lemma_short(texts, fields, format, b, j);
        assert(s.len() <= at);
        assert(span(s, at, w) =~= x);
    } else {
        if x.len() < w {
            lemma_short(texts, fields, format, b, j);
        }
        assert(span(s, at, w) =~= x);
    }
}

/// What stands in front of text `j` of field `b`.
spec fn in_front(texts: Seq<Seq<Seq<u8>>>, b: int, j: int) -> Seq<u8> {
    texts.take(b).flatten().flatten() + texts[b].take(j).flatten()
}

/// What stands behind it.
spec fn behind(texts: Seq<Seq<Seq<u8>>>, b: int, j: int) -> Seq<u8> {
    texts[b].skip(j + 1).flatten() + texts.skip(b + 1).flatten().flatten()
}

proof fn lemma_text_place(texts: Seq<Seq<Seq<u8>>>, b: int, j: int)
    requires
        0 <= b < texts.len(),
        0 <= j < texts[b].len(),
    ensures
        texts.flatten().flatten() == in_front(texts, b, j) + texts[b][j] + behind(texts, b, j),
{
    let x = texts[b];
    lemma_flatten_at(texts, b);
    let q = texts.skip(b + 1).flatten();
    let a = texts.take(b).flatten();
    assert(texts.flatten() =~= a + (x + q));
    lemma_flatten_concat(a, x + q);
    lemma_flatten_concat(x, q);
    lemma_flatten_at(x, j);
    assert(texts.flatten().flatten() =~= in_front(texts, b, j) + texts[b][j] + behind(texts, b, j));
}

/// A text in front of text `j` of field `b` is short.
spec fn short_before(
    texts: Seq<Seq<Seq<u8>>>,
    fields: Seq<FieldSpec>,
    format: CardFormat,
    b: int,
    j: int,
) -> bool {
    exists|c: int, k: int|
        0 <= c <= b && 0 <= k < fields[c].count && (c < b || k < j) && (#[trigger] texts[c][k]).len()
            < cell_columns(fields[c], format)
}

proof fn lemma_place_len(
    texts: Seq<Seq<Seq<u8>>>,
    fields: Seq<FieldSpec>,
    format: CardFormat,
    b: int,
    j: int,
)
    requires
        format != CardFormat::Free,
        fills_card(texts, fields, format),
        0 <= b < fields.len(),
        0 <= j < fields[b].count,
    ensures
        ({
            let at = columns_before(fields, b as nat, format) + j * field_width(fields[b], format);
            &&& in_front(texts, b, j).len() <= at
            &&& !short_before(texts, fields, format, b, j) ==> in_front(texts, b, j).len() == at
        }),
{
    let x = texts[b];
    let w = cell_columns(fields[b], format);
    assert(w == field_width(fields[b], format));
    assert(texts[b].len() == fields[b].count);
    lemma_front_len(texts, fields, format, b as nat);
    assert forall|k: int| 0 <= k < x.len() implies (#[trigger] x[k]).len() <= w by {
        assert(texts[b][k].len() <= w);
    }
    lemma_run_len(x, j as nat, w);
    if !short_before(texts, fields, format, b, j) {
        assert forall|c: int, k: int| 0 <= c < b && 0 <= k < fields[c].count implies (
        #[trigger] texts[c][k]).len() == cell_columns(fields[c], format) by {
            assert(texts[c][k].len() <= cell_columns(fields[c], format));
        }
        assert forall|k: int| 0 <= k < j implies (#[trigger] x[k]).len() == w by {
            assert(texts[b][k].len() <= cell_columns(fields[b], format));
        }
    }
}

/// Behind a short text there is nothing.
proof fn lemma_short(
    texts: Seq<Seq<Seq<u8>>>,
    fields: Seq<FieldSpec>,
    format: CardFormat,
    b: int,
    j: int,
)
    requires
        fills_card(texts, fields, format),
        0 <= b < fields.len(),
        0 <= j < fields[b].count,
        texts[b][j].len() < cell_columns(fields[b], format) || short_before(
            texts,
            fields,
            format,
            b,
            j,
        ),
    ensures
        !is_full(texts, fields, format),
        behind(texts, b, j).len() == 0,
        short_before(texts, fields, format, b, j) ==> texts[b][j].len() == 0,
{
    if short_before(texts, fields, format, b, j) {
        let (c, k) = choose|c: int, k: int|
            0 <= c <= b && 0 <= k < fields[c].count && (c < b || k < j)
                && (#[trigger] texts[c][k]).len() < cell_columns(fields[c], format);
        lemma_nothing_behind(texts, fields, format, c, k);
        assert(texts[b][j].len() == 0);
    } else {
        lemma_nothing_behind(texts, fields, format, b, j);
    }
    lemma_nothing_after(texts, fields, format, b, j);
}

/// A text that is short ends the line.
proof fn lemma_nothing_behind(
    texts: Seq<Seq<Seq<u8>>>,
    fields: Seq<FieldSpec>,
    format: CardFormat,
    c: int,
    k: int,
)
    requires
        fills_card(texts, fields, format),
        0 <= c < fields.len(),
        0 <= k < fields[c].count,
        texts[c][k].len() < cell_columns(fields[c], format),
    ensures
        !is_full(texts, fields, format),
{
    assert(texts[c][k].len() != cell_columns(fields[c], format));
}

proof fn lemma_empty_run(t: Seq<Seq<u8>>)
    requires
        forall|i: int| 0 <= i < t.len() ==> (#[trigger] t[i]).len() == 0,
    ensures
        t.flatten().len() == 0,
    decreases t.len(),
{
    if t.len() > 0 {
        let u = t.drop_first();
        assert forall|i: int| 0 <= i < u.len() implies (#[trigger] u[i]).len() == 0 by {
            assert(u[i] == t[i + 1]);
        }
        lemma_empty_run(u);
        assert(t[0].len() == 0);
    }
}

proof fn lemma_empty_runs(t: Seq<Seq<Seq<u8>>>)
    requires
        forall|b: int, j: int|
            0 <= b < t.len() && 0 <= j < t[b].len() ==> (#[trigger] t[b][j]).len() == 0,
    ensures
        t.flatten().flatten().len() == 0,
    decreases t.len(),
{
    if t.len() > 0 {
        let u = t.drop_first();
        assert forall|b: int, j: int| 0 <= b < u.len() && 0 <= j < u[b].len() implies (
        #[trigger] u[b][j]).len() == 0 by {
            assert(u[b][j] == t[b + 1][j]);
        }
        lemma_empty_runs(u);
        let x = t[0];
        assert forall|j: int| 0 <= j < x.len() implies (#[trigger] x[j]).len() == 0 by {
            assert(t[0][j].len() == 0);
        }
        lemma_empty_run(x);
        assert(t.first() == x);
        lemma_flatten_concat(x, u.flatten());
    }
}

/// Behind a text that does not fill its columns there is nothing.
proof fn lemma_nothing_after(
    texts: Seq<Seq<Seq<u8>>>,
    fields: Seq<FieldSpec>,
    format: CardFormat,
    b: int,
    j: int,
)
    requires
        fills_card(texts, fields, format),
        0 <= b < fields.len(),
        0 <= j < fields[b].count,
        texts[b][j].len() < cell_columns(fields[b], format) || exists|c: int, k: int|
            0 <= c <= b && 0 <= k < fields[c].count && (c < b || k < j)
                && (#[trigger] texts[c][k]).len() < cell_columns(fields[c], format),
    ensures
        texts[b].skip(j + 1).flatten().len() == 0,
        texts.skip(b + 1).flatten().flatten().len() == 0,
{
    let (c, k): (int, int) = if texts[b][j].len() < cell_columns(fields[b], format) {
        (b, j)
    } else {
        choose|c: int, k: int|
            0 <= c <= b && 0 <= k < fields[c].count && (c < b || k < j)
                && (#[trigger] texts[c][k]).len() < cell_columns(fields[c], format)
    };
    assert(texts[c][k].len() < cell_columns(fields[c], format));
    assert(texts[b].len() == fields[b].count);
    let x = texts[b].skip(j + 1);
    assert forall|i: int| 0 <= i < x.len() implies (#[trigger] x[i]).len() == 0 by {
        assert(x[i] == texts[b][j + 1 + i]);
    }
    lemma_empty_run(x);
    let t = texts.skip(b + 1);
    assert forall|d: int, i: int| 0 <= d < t.len() && 0 <= i < t[d].len() implies (
    #[trigger] t[d][i]).len() == 0 by {
        assert(texts[b + 1 + d].len() == fields[b + 1 + d].count);
        assert(t[d][i] == texts[b + 1 + d][i]);
    }
    lemma_empty_runs(t);
}

/// Texts with commas between them.
pub open spec fn with_commas(s: Seq<Seq<u8>>) -> Seq<u8>
    decreases s.len(),
{
    if s.len() == 0 {
        Seq::empty()
    } else if s.len() == 1 {
        s[0]
    } else {
        s[0] + seq![44u8] + with_commas(s.drop_first())
    }
}

proof fn lemma_commas_split(s: Seq<Seq<u8>>)
    requires
        s.len() > 0,
        forall|i: int| 0 <= i < s.len() ==> !(#[trigger] s[i]).contains(44),
    ensures
        split(with_commas(s), 44) == s,
    decreases s.len(),
{
    let a = s[0];
    assert forall|k: int| 0 <= k < a.len() implies a[k] != 44 by {
        if a[k] == 44 {
            assert(a.contains(44));
        }
    }
    lemma_split_front(a, 44, a.len() as int);
    if s.len() == 1 {
        assert(s =~= seq![a]);
    } else {
        let t = s.drop_first();
        assert forall|i: int| 0 <= i < t.len() implies !(#[trigger] t[i]).contains(44) by {
            assert(t[i] == s[i + 1]);
        }
        lemma_commas_split(t);
        lemma_split_at(a, 44, with_commas(t));
        assert(seq![a] + t =~= s);
    }
}

/// The cells of a line, field by field.
pub open spec fn cells(line: Line, fields: Seq<FieldSpec>) -> Seq<Seq<Seq<u8>>> {
    Seq::new(
        fields.len(),
        |b: int| Seq::new(fields[b].count as nat, |j: int| field_cell(line, fields, b, j)),
    )
}

proof fn lemma_cells_front(line: Line, fields: Seq<FieldSpec>, n: nat)
    requires
        n <= fields.len(),
        is_free(line),
    ensures
        cells(line, fields).take(n as int).flatten().len() == values_before(fields, n),
        forall|k: int|
            0 <= k < values_before(fields, n) ==> #[trigger] cells(line, fields).take(
                n as int,
            ).flatten()[k] == piece(split(stripped(line.0), 44), k),
    decreases n,
{
    if n > 0 {
        let c = cells(line, fields);
        let m = n - 1;
        lemma_cells_front(line, fields, m as nat);
        assert(c.take(n as int) =~= c.take(m).push(c[m]));
        c.take(m).lemma_flatten_push(c[m]);
        let f = c.take(n as int).flatten();
        let g = c.take(m).flatten();
        assert(f =~= g + c[m]);
        assert forall|k: int| 0 <= k < values_before(fields, n) implies #[trigger] f[k] == piece(
            split(stripped(line.0), 44),
            k,
        ) by {
            if k < g.len() {
                assert(f[k] == g[k]);
            } else {
                assert(f[k] == field_cell(line, fields, m, k - g.len()));
            }
        }
    }
}

/// With commas, or where the block says so, a line is cut at its commas: the values of
/// all fields, in order, are the texts between the commas, in order, whatever the
/// widths; values without a text are empty.
pub proof fn law_free_line_reads_back(
    texts: Seq<Seq<u8>>,
    fields: Seq<FieldSpec>,
    format: CardFormat,
    tail: Seq<u8>,
    k: int,
)
    requires
        texts.len() > 0,
        format == CardFormat::Free || texts.len() > 1,
        forall|i: int| 0 <= i < texts.len() ==> !(#[trigger] texts[i]).contains(44),
        ends_lines(tail),
        with_commas(texts).len() == 0 || (with_commas(texts).last() != 10 && with_commas(
            texts,
        ).last() != 13),
        0 <= k < cells((with_commas(texts) + tail, format), fields).flatten().len(),
    ensures
        cells((with_commas(texts) + tail, format), fields).flatten()[k] == (if k < texts.len() {
            texts[k]
        } else {
            Seq::empty()
        }),
{
    let s = with_commas(texts);
    let line = (s + tail, format);
    law_line_ends_do_not_count(s, tail);
    lemma_commas_split(texts);
    if texts.len() > 1 {
        assert(s[texts[0].len() as int] == 44);
        assert(s.contains(44));
    }
    assert(is_free(line));
    let c = cells(line, fields);
    lemma_cells_front(line, fields, fields.len());
    assert(c.take(fields.len() as int) =~= c);
}

/// A card without a schema has fields of eight columns, of sixteen on a long card, and
/// the texts between the commas on a free one.
pub proof fn law_plain_card(line: Line, k: nat)
    ensures
        plain_field(line, k) == ({
            let s = stripped(line.0);
            if line.1 == CardFormat::Free || s.contains(44) {
                if k < split(s, 44).len() {
                    split(s, 44)[k as int]
                } else {
                    Seq::empty()
                }
            } else {
                let w: int = if line.1 == CardFormat::Long {
                    16
                } else {
                    8
                };
                let from = if k * w <= s.len() {
                    k * w
                } else {
                    s.len() as int
                };
                let to = if k * w + w <= s.len() {
                    k * w + w
                } else {
                    s.len() as int
                };
                s.subrange(from, to)
            }
        }),
{
    let s = stripped(line.0);
    let w = plain_width(line.1) as int;
    assert(k * w >= 0) by (nonlinear_arith)
        requires
            w >= 0,
            k >= 0,
    ;
    if !is_free(line) {
        let from = if k * w <= s.len() {
            k * w
        } else {
            s.len() as int
        };
        let to = if k * w + w <= s.len() {
            k * w + w
        } else {
            s.len() as int
        };
        assert(plain_field(line, k) =~= s.subrange(from, to));
    }
}

/// A part has its title on a line of its own, and then its id, section and material in
/// the first three fields of a card; two lines to a part, in order.
pub proof fn law_part_cards(lines: Seq<Seq<u8>>, format: CardFormat, n: nat, i: int)
    requires
        0 <= i < n,
        2 * n <= lines.len(),
    ensures
        ({
            let p = parts_in(lines, format, n)[i];
            let card = (lines[i + i + 1], format);
            &&& p.title == trimmed(text_of(stripped(lines[i + i])))
            &&& p.pid == int_or_zero(plain_field(card, 0))
            &&& p.secid == int_or_zero(plain_field(card, 1))
            &&& p.mid == int_or_zero(plain_field(card, 2))
        }),
{
}

/// An elastic material has its id, density, stiffness and Poisson's ratio in the first
/// four fields of a card.
pub proof fn law_elastic_card(card: Line)
    ensures
        ({
            let m = mat_from(card);
            &&& m.mid == int_or_zero(plain_field(card, 0))
            &&& m.ro == plain_field(card, 1)
            &&& m.e == plain_field(card, 2)
            &&& m.pr == plain_field(card, 3)
        }),
{
}

} // verus!
