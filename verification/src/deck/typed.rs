//! Typed access to a few keywords.

use crate::deck::field::{int_or_zero, to_int};
use crate::deck::file::{
    body_of, lies_in, name_of, same_name, same_word, Block, CardFormat, ParsedFile,
};
use crate::deck::lines::{find_byte, slice_views, split, split_bytes, strip_eol, stripped};
use crate::deck::rows::{is_free, line_span, piece, span, Line};
use crate::text::{decode_lossy, text_of, trim_text, trimmed};
use vstd::prelude::*;
use vstd::slice::slice_to_vec;

verus! {

/// A part: a title, then a card with its ids.
#[derive(Debug, Clone, PartialEq)]
pub struct Part {
    pub title: String,
    pub pid: i64,
    pub secid: i64,
    pub mid: i64,
}

/// An elastic material. The floating-point fields are kept as they stand.
#[derive(Debug, Clone, PartialEq)]
pub struct MatElastic {
    pub mid: i64,
    pub ro: Vec<u8>,
    pub e: Vec<u8>,
    pub pr: Vec<u8>,
}

/// Blank but for what ends a line.
pub open spec fn is_padding(c: u8) -> bool {
    c == 32 || c == 9 || c == 13
}

/// The line is a comment, or holds nothing.
pub open spec fn carries_nothing(line: Seq<u8>) -> bool {
    let k = crate::deck::lines::indent(line) as int;
    (k < line.len() && line[k] == 36) || forall|i: int|
        0 <= i < line.len() ==> is_padding(#[trigger] line[i])
}

/// The lines that carry something.
pub open spec fn carrying(lines: Seq<Seq<u8>>) -> Seq<Seq<u8>>
    decreases lines.len(),
{
    if lines.len() == 0 {
        Seq::empty()
    } else if carries_nothing(lines.last()) {
        carrying(lines.drop_last())
    } else {
        carrying(lines.drop_last()).push(lines.last())
    }
}

fn is_empty_line(line: &[u8]) -> (r: bool)
    ensures
        r == carries_nothing(line@),
{
    let n: usize = line.len();
    let mut k: usize = 0;
    while k < n && (line[k] == 32 || line[k] == 9)
        invariant
            k <= n,
            n == line@.len(),
            forall|i: int| 0 <= i < k ==> line@[i] == 32 || line@[i] == 9,
        decreases n - k,
    {
        k = k + 1;
    }
    proof {
        crate::deck::lines::lemma_indent(line@, k as int);
    }
    if k < n && line[k] == 36 {
        return true;
    }
    for i in k..n
        invariant
            k <= n,
            n == line@.len(),
            forall|x: int| 0 <= x < i ==> is_padding(#[trigger] line@[x]),
            crate::deck::lines::indent(line@) == k,
            k < n ==> line@[k as int] != 36,
    {
        let c: u8 = line[i];
        if c != 32 && c != 9 && c != 13 {
            assert(!is_padding(line@[i as int]));
            return false;
        }
    }
    true
}

/// The lines of a block that are neither comments nor blank.
pub fn data_lines<'a>(parsed: &'a ParsedFile, block: &Block) -> (r: Vec<&'a [u8]>)
    requires
        lies_in(*block, parsed.src@.len()),
    ensures
        slice_views(r@) == carrying(split(body_of(parsed.src@, *block), 10)),
{
    let all: Vec<&'a [u8]> = split_bytes(parsed.body(block), 10);
    let ghost lines = slice_views(all@);
    let mut out: Vec<&'a [u8]> = Vec::new();
    assert(lines.take(0) =~= Seq::<Seq<u8>>::empty());
    assert(slice_views(out@) =~= carrying(lines.take(0)));
    for i in 0..all.len()
        invariant
            lines == slice_views(all@),
            slice_views(out@) == carrying(lines.take(i as int)),
    {
        let line: &'a [u8] = all[i];
        assert(lines.take(i + 1).drop_last() =~= lines.take(i as int));
        assert(lines.take(i + 1).last() == line@);
        if !is_empty_line(line) {
            let ghost had = out@;
            out.push(line);
            assert(slice_views(out@) =~= slice_views(had).push(line@));
        }
    }
    assert(lines.take(lines.len() as int) =~= lines);
    out
}

/// Columns per field of a card without a schema.
pub open spec fn plain_width(format: CardFormat) -> nat {
    if format == CardFormat::Long {
        16
    } else {
        8
    }
}

/// Field `k` of a card without a schema: by commas, or in columns of one width.
pub open spec fn plain_field(line: Line, k: nat) -> Seq<u8> {
    let s = stripped(line.0);
    if is_free(line) {
        piece(split(s, 44), k as int)
    } else {
        span(s, (k * plain_width(line.1)) as int, plain_width(line.1))
    }
}

/// The first `n` fields of a card without a schema.
fn split_fields(line: &[u8], format: CardFormat, n: usize) -> (r: Vec<Vec<u8>>)
    requires
        n <= 8,
    ensures
        r@.len() == n,
        forall|k: int|
            0 <= k < n ==> (#[trigger] r@[k])@ == plain_field((line@, format), k as nat),
{
    let ghost all = (line@, format);
    let s: &[u8] = strip_eol(line);
    let free: bool = if format == CardFormat::Free {
        true
    } else {
        match find_byte(44, s) {
            Some(_) => true,
            None => false,
        }
    };
    assert(free == is_free(all));
    let toks: Vec<&[u8]> = split_bytes(s, 44);
    let w: usize = if format == CardFormat::Long { 16 } else { 8 };
    let mut out: Vec<Vec<u8>> = Vec::new();
    for k in 0..n
        invariant
            n <= 8,
            all == (line@, format),
            free == is_free(all),
            s@ == stripped(line@),
            slice_views(toks@) == split(s@, 44),
            w == plain_width(format),
            w <= 16,
            out@.len() == k,
            forall|x: int|
                0 <= x < k ==> (#[trigger] out@[x])@ == plain_field(all, x as nat),
    {
        if free {
            if k < toks.len() {
                assert(slice_views(toks@)[k as int] == toks@[k as int]@);
                out.push(slice_to_vec(toks[k]));
            } else {
                assert(slice_views(toks@).len() == toks@.len());
                let none: Vec<u8> = Vec::new();
                assert(none@ =~= Seq::<u8>::empty());
                out.push(none);
            }
        } else {
            assert(k * w <= 128) by (nonlinear_arith)
                requires
                    k < 8,
                    w <= 16,
            ;
            out.push(slice_to_vec(line_span(s, k * w, w)));
        }
    }
    out
}

/// What is known of a part.
pub struct PartView {
    pub title: Seq<char>,
    pub pid: i64,
    pub secid: i64,
    pub mid: i64,
}

impl View for Part {
    type V = PartView;

    open spec fn view(&self) -> PartView {
        PartView { title: self.title@, pid: self.pid, secid: self.secid, mid: self.mid }
    }
}

/// The part that a title line and a card give.
pub open spec fn part_from(title: Seq<u8>, card: Line) -> PartView {
    PartView {
        title: trimmed(text_of(stripped(title))),
        pid: int_or_zero(plain_field(card, 0)),
        secid: int_or_zero(plain_field(card, 1)),
        mid: int_or_zero(plain_field(card, 2)),
    }
}

/// The first `n` parts of a block: lines two by two.
pub open spec fn parts_in(lines: Seq<Seq<u8>>, format: CardFormat, n: nat) -> Seq<PartView> {
    Seq::new(n, |i: int| part_from(lines[2 * i], (lines[2 * i + 1], format)))
}

/// The parts in the first `n` blocks of a file.
pub open spec fn parts_of(f: ParsedFile, n: nat) -> Seq<PartView>
    decreases n,
{
    if n == 0 {
        Seq::empty()
    } else {
        let b = f.blocks@[n - 1];
        let lines = carrying(split(body_of(f.src@, b), 10));
        let rest = parts_of(f, (n - 1) as nat);
        if same_word(name_of(f.src@, b), vstd::utf8::encode_utf8("PART"@)) {
            rest + parts_in(lines, b.format, lines.len() / 2)
        } else {
            rest
        }
    }
}

pub open spec fn part_views(s: Seq<Part>) -> Seq<PartView> {
    Seq::new(s.len(), |i: int| s[i]@)
}

/// Parses all `*PART` blocks. A block may hold several parts, each a title and a
/// card; a title without a card is no part.
pub fn parse_parts(parsed: &ParsedFile) -> (r: Vec<Part>)
    requires
        parsed.wf(),
    ensures
        part_views(r@) == parts_of(*parsed, parsed.blocks@.len()),
{
    let mut out: Vec<Part> = Vec::new();
    let word: &str = "PART";
    let key: &[u8] = word.as_bytes();
    assert(part_views(out@) =~= parts_of(*parsed, 0));
    for bi in 0..parsed.blocks.len()
        invariant
            parsed.wf(),
            key@ == vstd::utf8::encode_utf8("PART"@),
            part_views(out@) == parts_of(*parsed, bi as nat),
    {
        let block: &Block = &parsed.blocks[bi];
        assert(lies_in(parsed.blocks@[bi as int], parsed.src@.len()));
        if same_name(parsed.keyword_name(block), key) {
            let lines: Vec<&[u8]> = data_lines(parsed, block);
            let ghost all = slice_views(lines@);
            let ghost before = part_views(out@);
            let n: usize = lines.len();
            assert(part_views(out@) =~= before + parts_in(all, block.format, 0));
            for i in 0..n / 2
                invariant
                    n == lines@.len(),
                    all == slice_views(lines@),
                    part_views(out@) == before + parts_in(all, block.format, i as nat),
            {
                let title_line: &[u8] = lines[2 * i];
                let card: &[u8] = lines[2 * i + 1];
                assert(all[2 * i] == title_line@ && all[2 * i + 1] == card@);
                let text: String = decode_lossy(strip_eol(title_line));
                let title: String = trim_text(text.as_str());
                let fields: Vec<Vec<u8>> = split_fields(card, block.format, 3);
                let part = Part {
                    title,
                    pid: to_int(fields[0].as_slice()),
                    secid: to_int(fields[1].as_slice()),
                    mid: to_int(fields[2].as_slice()),
                };
                let ghost had = out@;
                out.push(part);
                assert(part_views(out@) =~= part_views(had).push(part@));
                assert(part_views(out@) =~= before + parts_in(all, block.format, (i + 1) as nat));
            }
        }
    }
    out
}

/// What is known of an elastic material.
pub struct MatElasticView {
    pub mid: i64,
    pub ro: Seq<u8>,
    pub e: Seq<u8>,
    pub pr: Seq<u8>,
}

impl View for MatElastic {
    type V = MatElasticView;

    open spec fn view(&self) -> MatElasticView {
        MatElasticView { mid: self.mid, ro: self.ro@, e: self.e@, pr: self.pr@ }
    }
}

/// The material that a card gives.
pub open spec fn mat_from(card: Line) -> MatElasticView {
    MatElasticView {
        mid: int_or_zero(plain_field(card, 0)),
        ro: plain_field(card, 1),
        e: plain_field(card, 2),
        pr: plain_field(card, 3),
    }
}

/// The materials in the first `n` blocks of a file, one to a card.
pub open spec fn mats_of(f: ParsedFile, n: nat) -> Seq<MatElasticView>
    decreases n,
{
    if n == 0 {
        Seq::empty()
    } else {
        let b = f.blocks@[n - 1];
        let lines = carrying(split(body_of(f.src@, b), 10));
        let rest = mats_of(f, (n - 1) as nat);
        if same_word(name_of(f.src@, b), vstd::utf8::encode_utf8("MAT_ELASTIC"@)) {
            rest + Seq::new(lines.len(), |i: int| mat_from((lines[i], b.format)))
        } else {
            rest
        }
    }
}

pub open spec fn mat_views(s: Seq<MatElastic>) -> Seq<MatElasticView> {
    Seq::new(s.len(), |i: int| s[i]@)
}

/// Parses all `*MAT_ELASTIC` blocks, one material to a card.
pub fn parse_mat_elastic(parsed: &ParsedFile) -> (r: Vec<MatElastic>)
    requires
        parsed.wf(),
    ensures
        mat_views(r@) == mats_of(*parsed, parsed.blocks@.len()),
{
    let mut out: Vec<MatElastic> = Vec::new();
    let word: &str = "MAT_ELASTIC";
    let key: &[u8] = word.as_bytes();
    assert(mat_views(out@) =~= mats_of(*parsed, 0));
    for bi in 0..parsed.blocks.len()
        invariant
            parsed.wf(),
            key@ == vstd::utf8::encode_utf8("MAT_ELASTIC"@),
            mat_views(out@) == mats_of(*parsed, bi as nat),
    {
        let block: &Block = &parsed.blocks[bi];
        assert(lies_in(parsed.blocks@[bi as int], parsed.src@.len()));
        if same_name(parsed.keyword_name(block), key) {
            let lines: Vec<&[u8]> = data_lines(parsed, block);
            let ghost all = slice_views(lines@);
            let ghost before = mat_views(out@);
            let n: usize = lines.len();
            let ghost mats = Seq::new(all.len(), |i: int| mat_from((all[i], block.format)));
            assert(mat_views(out@) =~= before + mats.take(0));
            for i in 0..n
                invariant
                    n == lines@.len(),
                    all == slice_views(lines@),
                    mats == Seq::new(all.len(), |i: int| mat_from((all[i], block.format))),
                    mat_views(out@) == before + mats.take(i as int),
            {
                let card: &[u8] = lines[i];
                assert(all[i as int] == card@);
                let fields: Vec<Vec<u8>> = split_fields(card, block.format, 4);
                let mat = MatElastic {
                    mid: to_int(fields[0].as_slice()),
                    ro: slice_to_vec(fields[1].as_slice()),
                    e: slice_to_vec(fields[2].as_slice()),
                    pr: slice_to_vec(fields[3].as_slice()),
                };
                let ghost had = out@;
                out.push(mat);
                assert(mat_views(out@) =~= mat_views(had).push(mat@));
                assert(mats.take(i + 1) =~= mats.take(i as int).push(mats[i as int]));
                assert(mat_views(out@) =~= before + mats.take(i + 1));
            }
            assert(mats.take(n as int) =~= mats);
        }
    }
    out
}

} // verus!
