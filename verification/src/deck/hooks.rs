//! What generated parsers of single cards are built from.

use crate::deck::chunks::{chunk_rows, collect_chunks};
use crate::deck::column::{Column, Table};
use crate::deck::field::{int_or_zero, text_in_field, to_int, Field};
use crate::deck::file::{CardFormat, ParsedFile};
use crate::deck::lines::{find_byte, is_skippable, skippable, strip_eol, stripped};
use crate::deck::rows::{line_span, rows_up_to, span, Line};
use crate::deck::inplace::one_file;
use crate::deck::schema::{Card, FieldType, Schema};
use vstd::prelude::*;

verus! {

/// The layout of a keyword that a type stands for.
pub trait KeywordSchema {
    fn schema() -> Schema;
}

/// The layout of a card that a type stands for.
pub trait CardLayout {
    fn card() -> Card;
}

/// Tells whether a line is empty or a comment.
pub fn __is_skippable(line: &[u8]) -> (r: bool)
    ensures
        r == skippable(line@),
{
    is_skippable(line)
}

/// The line without its end.
pub fn __strip_eol(line: &[u8]) -> (r: &[u8])
    ensures
        r@ == stripped(line@),
{
    strip_eol(line)
}

/// Tells whether the values of a line are separated by commas.
pub fn __is_free(line: &[u8], fmt: CardFormat) -> (r: bool)
    ensures
        r == (fmt == CardFormat::Free || line@.contains(44)),
{
    fmt == CardFormat::Free || find_byte(44, line).is_some()
}

/// The `w` bytes from `off` on, as far as the line goes.
pub fn __slice(line: &[u8], off: usize, w: usize) -> (r: &[u8])
    ensures
        r@ == span(line@, off as int, w as nat),
{
    line_span(line, off, w)
}

/// The integer in a field, or 0.
pub fn __to_int(raw: &[u8]) -> (r: i64)
    ensures
        r == int_or_zero(raw@),
{
    to_int(raw)
}

/// The text in a field.
pub fn __to_str(raw: &[u8]) -> (r: String)
    ensures
        r@ == text_in_field(raw@),
{
    let f: Field = Field { raw };
    f.as_str()
}

/// The values of a column.
pub enum Values {
    Int(Seq<i64>),
    Float(Seq<Seq<u8>>),
    Str(Seq<Seq<char>>),
}

impl Column {
    /// The values of the column.
    pub open spec fn values(self) -> Values {
        match self {
            Column::Int { data, .. } => Values::Int(data@),
            Column::Float { data, .. } => Values::Float(
                Seq::new(data@.len(), |i: int| data@[i]@),
            ),
            Column::Str { data, .. } => Values::Str(Seq::new(data@.len(), |i: int| data@[i]@)),
        }
    }

    /// The columns are of the same kind.
    pub open spec fn alike(self, other: Self) -> bool {
        match (self, other) {
            (Column::Int { .. }, Column::Int { .. }) => true,
            (Column::Float { .. }, Column::Float { .. }) => true,
            (Column::Str { .. }, Column::Str { .. }) => true,
            _ => false,
        }
    }
}

/// The values of one column behind those of another of the same kind.
pub open spec fn joined(a: Values, b: Values) -> Values {
    match (a, b) {
        (Values::Int(x), Values::Int(y)) => Values::Int(x + y),
        (Values::Float(x), Values::Float(y)) => Values::Float(x + y),
        (Values::Str(x), Values::Str(y)) => Values::Str(x + y),
        _ => a,
    }
}

/// What stands in column `b` once the first `n` parts are behind one another.
pub open spec fn merged(parts: Seq<Seq<Column>>, b: int, n: nat) -> Values
    decreases n,
{
    if n <= 1 {
        parts[0][b].values()
    } else {
        joined(merged(parts, b, (n - 1) as nat), parts[n - 1][b].values())
    }
}

/// `f` may give `cols` for a chunk.
pub open spec fn gives_columns<F: Fn(&[u8], CardFormat) -> Vec<Column>>(
    f: F,
    chunk: Seq<u8>,
    format: CardFormat,
    cols: Seq<Column>,
) -> bool {
    exists|x: &[u8], v: Vec<Column>|
        x@ == chunk && v@ == cols && #[trigger] call_ensures(f, (x, format), v)
}

/// `f` takes every chunk and always gives columns of the kinds of `like`.
pub open spec fn is_parser<F: Fn(&[u8], CardFormat) -> Vec<Column>>(
    f: F,
    like: Seq<Column>,
) -> bool {
    &&& forall|x: &[u8], format: CardFormat| #[trigger] call_requires(f, (x, format))
    &&& forall|x: &[u8], format: CardFormat, v: Vec<Column>| #[trigger]
        call_ensures(f, (x, format), v) ==> kinds_as(v@, like)
}

/// The columns are of the kinds of `like`.
pub open spec fn kinds_as(v: Seq<Column>, like: Seq<Column>) -> bool {
    v.len() == like.len() && forall|b: int| 0 <= b < like.len() ==> (#[trigger] v[b]).alike(like[b])
}

/// The columns are those that a parser gives for chunks, one chunk behind the other.
pub open spec fn driven<F: Fn(&[u8], CardFormat) -> Vec<Column>>(
    f: F,
    chunks: Seq<(&[u8], CardFormat)>,
    parts: Seq<Seq<Column>>,
    r: Seq<Column>,
) -> bool {
    &&& parts.len() == chunks.len()
    &&& forall|i: int|
        0 <= i < parts.len() ==> gives_columns(
            f,
            chunks[i].0@,
            chunks[i].1,
            #[trigger] parts[i],
        )
    &&& r.len() == parts[0].len()
    &&& forall|b: int|
        0 <= b < r.len() ==> (#[trigger] r[b]).values() == merged(parts, b, parts.len())
}

proof fn lemma_join(a: Column, b: Column, c: Column)
    requires
        a.alike(b),
        a.alike(c),
        c.len() == a.len() + b.len(),
        forall|i: int| 0 <= i < a.len() ==> #[trigger] c.same_at(i, a, i),
        forall|i: int| 0 <= i < b.len() ==> #[trigger] c.same_at(a.len() + i, b, i),
    ensures
        c.values() == joined(a.values(), b.values()),
{
    let n = a.len() as int;
    match (a.values(), b.values(), c.values()) {
        (Values::Int(x), Values::Int(y), Values::Int(z)) => {
            assert forall|i: int| 0 <= i < z.len() implies z[i] == (x + y)[i] by {
                if i < n {
                    assert(c.same_at(i, a, i));
                } else {
                    assert(c.same_at(n + (i - n), b, i - n));
                }
            }
            assert(z =~= x + y);
        },
        (Values::Float(x), Values::Float(y), Values::Float(z)) => {
            assert forall|i: int| 0 <= i < z.len() implies z[i] == (x + y)[i] by {
                if i < n {
                    assert(c.same_at(i, a, i));
                } else {
                    assert(c.same_at(n + (i - n), b, i - n));
                }
            }
            assert(z =~= x + y);
        },
        (Values::Str(x), Values::Str(y), Values::Str(z)) => {
            assert forall|i: int| 0 <= i < z.len() implies z[i] == (x + y)[i] by {
                if i < n {
                    assert(c.same_at(i, a, i));
                } else {
                    assert(c.same_at(n + (i - n), b, i - n));
                }
            }
            assert(z =~= x + y);
        },
        _ => {},
    }
}

/// The columns are those for the chunks, or for an empty chunk where there is none.
pub open spec fn outcome<F: Fn(&[u8], CardFormat) -> Vec<Column>>(
    f: F,
    chunks: Seq<(&[u8], CardFormat)>,
    parts: Seq<Seq<Column>>,
    r: Seq<Column>,
) -> bool {
    if chunks.len() == 0 {
        gives_columns(f, Seq::empty(), CardFormat::Fixed, r)
    } else {
        driven(f, chunks, parts, r)
    }
}

/// Runs a parser over the blocks of a keyword, in chunks of whole lines, and joins the
/// columns that it gives. Where there is no block, the columns are those for an empty
/// chunk. However the blocks were cut, the chunks have the lines of the blocks.
pub fn __drive_single_card<F: Fn(&[u8], CardFormat) -> Vec<Column>>(
    parsed: &ParsedFile,
    keyword: &str,
    per_chunk: F,
) -> (r: Vec<Column>)
    requires
        parsed.wf(),
        exists|like: Seq<Column>| #[trigger] is_parser(per_chunk, like),
    ensures
        exists|chunks: Seq<(&[u8], CardFormat)>, parts: Seq<Seq<Column>>|
            chunk_rows(chunks, chunks.len()) == keyword_rows(*parsed, keyword@)
                && #[trigger] outcome(per_chunk, chunks, parts, r@),
{
    let files: &[ParsedFile] = one_file(parsed);
    assert(files@ =~= seq![*parsed]);
    let chunks: Vec<(&[u8], CardFormat)> = collect_chunks(files, keyword);
    let ghost like = choose|like: Seq<Column>| #[trigger] is_parser(per_chunk, like);
    if chunks.len() == 0 {
        let none: Vec<u8> = Vec::new();
        let x: &[u8] = none.as_slice();
        let r: Vec<Column> = per_chunk(x, CardFormat::Fixed);
        proof {
            assert(x@ =~= Seq::<u8>::empty());
            assert(gives_columns(per_chunk, Seq::empty(), CardFormat::Fixed, r@));
            let parts = Seq::<Seq<Column>>::empty();
            assert(outcome(per_chunk, chunks@, parts, r@));
        }
        return r;
    }
    let ghost mut parts: Seq<Seq<Column>> = Seq::empty();
    let (c0, f0) = chunks[0];
    let mut base: Vec<Column> = per_chunk(c0, f0);
    proof {
        assert(gives_columns(per_chunk, c0@, f0, base@));
        parts = seq![base@];
    }
    for i in 1..chunks.len()
        invariant
            chunks@.len() >= 1,
            is_parser(per_chunk, like),
            parts.len() == i,
            base@.len() == parts[0].len(),
            parts[0].len() == like.len(),
            kinds_as(base@, like),
            forall|k: int|
                0 <= k < i ==> gives_columns(
                    per_chunk,
                    chunks@[k].0@,
                    chunks@[k].1,
                    #[trigger] parts[k],
                ),
            forall|b: int|
                0 <= b < base@.len() ==> (#[trigger] base@[b]).values() == merged(
                    parts,
                    b,
                    i as nat,
                ),
    {
        let (chunk, format) = chunks[i];
        let mut part: Vec<Column> = per_chunk(chunk, format);
        let ghost own = part@;
        let ghost before = base@;
        let ghost old_parts = parts;
        proof {
            assert(gives_columns(per_chunk, chunk@, format, own));
            assert(kinds_as(own, like));
            parts = parts.push(own);
            assert forall|b: int, m: nat| m <= i implies #[trigger] merged(parts, b, m) == merged(
                old_parts,
                b,
                m,
            ) by {
                lemma_merged_prefix(old_parts, own, b, m);
            }
            assert(own.skip(0) =~= own);
        }
        let width: usize = base.len();
        for c in 0..width
            invariant
                width == base@.len(),
                width == before.len(),
                width == own.len(),
                width == like.len(),
                kinds_as(before, like),
                kinds_as(own, like),
                part@ == own.skip(c as int),
                forall|b: int| c <= b < width ==> base@[b] == #[trigger] before[b],
                forall|b: int|
                    0 <= b < c ==> (#[trigger] base@[b]).values() == joined(
                        before[b].values(),
                        own[b].values(),
                    ) && base@[b].alike(like[b]),
        {
            let from: Column = part.remove(0);
            let ghost mid = base@;
            proof {
                assert(from == own[c as int]);
                assert(mid[c as int] == before[c as int]);
                assert(before[c as int].alike(like[c as int]));
                assert(own[c as int].alike(like[c as int]));
                lemma_alike_types(before[c as int], from);
                assert(part@ =~= own.skip(c + 1));
            }
            base[c].extend(from);
            proof {
                let z = base@[c as int];
                lemma_types_alike(before[c as int], z);
                lemma_join(before[c as int], from, z);
                assert forall|b: int| 0 <= b < c + 1 implies (#[trigger] base@[b]).values()
                    == joined(before[b].values(), own[b].values()) && base@[b].alike(
                    like[b],
                ) by {
                    if b < c {
                        assert(base@[b] == mid[b]);
                    }
                }
            }
        }
        proof {
            assert forall|b: int| 0 <= b < base@.len() implies (#[trigger] base@[b]).values()
                == merged(parts, b, (i + 1) as nat) by {
                assert(before[b].values() == merged(old_parts, b, i as nat));
                assert(merged(parts, b, i as nat) == merged(old_parts, b, i as nat));
            }
            assert forall|k: int| 0 <= k < i + 1 implies gives_columns(
                per_chunk,
                chunks@[k].0@,
                chunks@[k].1,
                #[trigger] parts[k],
            ) by {
                if k < i {
                    assert(parts[k] == old_parts[k]);
                }
            }
        }
    }
    assert(outcome(per_chunk, chunks@, parts, base@));
    base
}

/// The data lines of the blocks of a keyword in a file.
pub open spec fn keyword_rows(parsed: ParsedFile, keyword: Seq<char>) -> Seq<Line> {
    rows_up_to(seq![parsed], 1, 0, vstd::utf8::encode_utf8(keyword), 1, true, 0)
}

proof fn lemma_merged_prefix(parts: Seq<Seq<Column>>, x: Seq<Column>, b: int, m: nat)
    requires
        m <= parts.len(),
        parts.len() > 0,
    ensures
        merged(parts.push(x), b, m) == merged(parts, b, m),
    decreases m,
{
    if m > 1 {
        lemma_merged_prefix(parts, x, b, (m - 1) as nat);
    }
}

proof fn lemma_alike_types(a: Column, b: Column)
    requires
        a.alike(b),
    ensures
        exists|t: FieldType| a.is_for(t) && b.is_for(t),
{
    let t = match a {
        Column::Int { .. } => FieldType::Int,
        Column::Float { .. } => FieldType::Float,
        Column::Str { .. } => FieldType::Str,
    };
    assert(a.is_for(t) && b.is_for(t));
}

proof fn lemma_types_alike(a: Column, b: Column)
    requires
        forall|t: FieldType| a.is_for(t) == #[trigger] b.is_for(t),
    ensures
        a.alike(b),
{
    let t = match a {
        Column::Int { .. } => FieldType::Int,
        Column::Float { .. } => FieldType::Float,
        Column::Str { .. } => FieldType::Str,
    };
    assert(a.is_for(t) == b.is_for(t));
}

/// A table from the names of columns and the columns, as far as both go.
pub fn __table(names: Vec<&'static str>, cols: Vec<Column>) -> (r: Table)
    ensures
        r.columns@.len() == if names@.len() <= cols@.len() {
            names@.len()
        } else {
            cols@.len()
        },
        forall|i: int|
            0 <= i < r.columns@.len() ==> (#[trigger] r.columns@[i]).0@ == names@[i]@
                && r.columns@[i].1 == cols@[i],
{
    let ghost all = cols@;
    let mut rest: Vec<Column> = cols;
    let mut columns: Vec<(String, Column)> = Vec::new();
    let n: usize = if names.len() <= rest.len() { names.len() } else { rest.len() };
    assert(all.skip(0) =~= all);
    for i in 0..n
        invariant
            n <= names@.len(),
            n <= all.len(),
            rest@ == all.skip(i as int),
            columns@.len() == i,
            forall|k: int|
                0 <= k < i ==> (#[trigger] columns@[k]).0@ == names@[k]@ && columns@[k].1
                    == all[k],
    {
        let c: Column = rest.remove(0);
        assert(rest@ =~= all.skip(i + 1));
        columns.push((String::from_str(names[i]), c));
    }
    Table { columns }
}

} // verus!
