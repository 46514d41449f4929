//! Lines of a block: which of them carry data, and where they end.

use vstd::prelude::*;
use vstd::slice::slice_subrange;

verus! {

/// Calls `memchr::memchr`, which gives the place of the first byte that equals
/// `needle`, or `None` where there is none.
#[verifier::external_body]
pub(crate) fn find_byte(needle: u8, b: &[u8]) -> (r: Option<usize>)
    ensures
        match r {
            Some(i) => {
                &&& i < b@.len()
                &&& b@[i as int] == needle
                &&& forall|k: int| 0 <= k < i ==> b@[k] != needle
            },
            None => forall|k: int| 0 <= k < b@.len() ==> b@[k] != needle,
        },
{
    memchr::memchr(needle, b)
}

/// The pieces of `b` between the bytes `sep`: one more than there are such bytes.
pub open spec fn split(b: Seq<u8>, sep: u8) -> Seq<Seq<u8>>
    decreases b.len(),
{
    if b.len() == 0 {
        seq![b]
    } else {
        let rest = split(b.drop_last(), sep);
        if b.last() == sep {
            rest.push(Seq::empty())
        } else {
            rest.drop_last().push(rest.last().push(b.last()))
        }
    }
}

pub proof fn lemma_split_len(b: Seq<u8>, sep: u8)
    ensures
        split(b, sep).len() >= 1,
    decreases b.len(),
{
    if b.len() > 0 {
        lemma_split_len(b.drop_last(), sep);
    }
}

/// Without separators there is one piece.
proof fn lemma_split_none(b: Seq<u8>, sep: u8)
    requires
        forall|k: int| 0 <= k < b.len() ==> b[k] != sep,
    ensures
        split(b, sep) == seq![b],
    decreases b.len(),
{
    if b.len() > 0 {
        let a = b.drop_last();
        assert forall|k: int| 0 <= k < a.len() implies a[k] != sep by {
            assert(a[k] == b[k]);
        }
        lemma_split_none(a, sep);
        assert(a.push(b.last()) =~= b);
        assert(split(b, sep) =~= seq![b]);
    }
}

/// Splitting goes on behind a separator as if from the start.
pub proof fn lemma_split_at(a: Seq<u8>, sep: u8, c: Seq<u8>)
    ensures
        split(a + seq![sep] + c, sep) == split(a, sep) + split(c, sep),
    decreases c.len(),
{
    let b = a + seq![sep] + c;
    if c.len() == 0 {
        assert(b.drop_last() =~= a);
        assert(b.last() == sep);
        assert(c =~= Seq::<u8>::empty());
        assert(split(b, sep) =~= split(a, sep) + split(c, sep));
    } else {
        let d = c.drop_last();
        assert(b.drop_last() =~= a + seq![sep] + d);
        assert(b.last() == c.last());
        lemma_split_at(a, sep, d);
        lemma_split_len(d, sep);
        let x = split(a, sep);
        let y = split(d, sep);
        if c.last() != sep {
            assert((x + y).drop_last() =~= x + y.drop_last());
            assert((x + y).last() == y.last());
        }
        assert(split(b, sep) =~= split(a, sep) + split(c, sep));
    }
}

/// The piece in front of the first separator, then the rest.
pub proof fn lemma_split_front(b: Seq<u8>, sep: u8, i: int)
    requires
        0 <= i <= b.len(),
        forall|k: int| 0 <= k < i ==> b[k] != sep,
        i < b.len() ==> b[i] == sep,
    ensures
        i == b.len() ==> split(b, sep) == seq![b],
        i < b.len() ==> split(b, sep) == seq![b.take(i)] + split(b.skip(i + 1), sep),
{
    if i == b.len() {
        lemma_split_none(b, sep);
    } else {
        let a = b.take(i);
        assert forall|k: int| 0 <= k < a.len() implies a[k] != sep by {
            assert(a[k] == b[k]);
        }
        lemma_split_none(a, sep);
        assert(b =~= a + seq![sep] + b.skip(i + 1));
        lemma_split_at(a, sep, b.skip(i + 1));
    }
}

/// The contents of slices.
pub open spec fn slice_views(s: Seq<&[u8]>) -> Seq<Seq<u8>> {
    Seq::new(s.len(), |i: int| s[i]@)
}

/// Splits bytes at every `sep`.
pub fn split_bytes<'a>(b: &'a [u8], sep: u8) -> (r: Vec<&'a [u8]>)
    ensures
        slice_views(r@) == split(b@, sep),
{
    let mut out: Vec<&'a [u8]> = Vec::new();
    let mut rest: &'a [u8] = b;
    assert(slice_views(out@) + split(rest@, sep) =~= split(b@, sep));
    loop
        invariant
            slice_views(out@) + split(rest@, sep) == split(b@, sep),
        decreases rest@.len(),
    {
        let ghost had = out@;
        match find_byte(sep, rest) {
            Some(i) => {
                let n: usize = rest.len();
                let piece: &'a [u8] = slice_subrange(rest, 0, i);
                let tail: &'a [u8] = slice_subrange(rest, i + 1, n);
                proof {
                    lemma_split_front(rest@, sep, i as int);
                    assert(piece@ =~= rest@.take(i as int));
                    assert(tail@ =~= rest@.skip(i + 1));
                }
                out.push(piece);
                assert(slice_views(out@) =~= slice_views(had).push(piece@));
                assert(slice_views(out@) + split(tail@, sep) =~= slice_views(had) + (seq![piece@]
                    + split(tail@, sep)));
                rest = tail;
            },
            None => {
                proof {
                    lemma_split_front(rest@, sep, rest@.len() as int);
                }
                out.push(rest);
                assert(slice_views(out@) =~= slice_views(had) + seq![rest@]);
                return out;
            },
        }
    }
}

/// The bytes that end a line.
pub open spec fn is_eol(c: u8) -> bool {
    c == 10 || c == 13
}

/// `s` without line ends behind it.
pub open spec fn stripped(s: Seq<u8>) -> Seq<u8>
    decreases s.len(),
{
    if s.len() > 0 && is_eol(s.last()) {
        stripped(s.drop_last())
    } else {
        s
    }
}

/// Takes line ends away from the end of a line, and nothing else.
pub fn strip_eol(s: &[u8]) -> (r: &[u8])
    ensures
        r@ == stripped(s@),
{
    let mut end: usize = s.len();
    assert(s@.take(end as int) =~= s@);
    while end > 0 && (s[end - 1] == 13 || s[end - 1] == 10)
        invariant
            end <= s@.len(),
            stripped(s@.take(end as int)) == stripped(s@),
        decreases end,
    {
        assert(s@.take(end as int).drop_last() =~= s@.take(end - 1));
        end = end - 1;
    }
    let r: &[u8] = slice_subrange(s, 0, end);
    assert(r@ =~= s@.take(end as int));
    r
}

/// Blanks and tabs in front.
pub open spec fn indent(s: Seq<u8>) -> nat
    decreases s.len(),
{
    if s.len() > 0 && (s[0] == 32 || s[0] == 9) {
        1 + indent(s.drop_first())
    } else {
        0
    }
}

pub proof fn lemma_indent(s: Seq<u8>, k: int)
    requires
        0 <= k <= s.len(),
        forall|i: int| 0 <= i < k ==> s[i] == 32 || s[i] == 9,
        k < s.len() ==> s[k] != 32 && s[k] != 9,
    ensures
        indent(s) == k,
    decreases k,
{
    if k > 0 {
        lemma_indent(s.drop_first(), k - 1);
    }
}

/// A line that carries no data: a comment, or nothing but blanks.
pub open spec fn skippable(line: Seq<u8>) -> bool {
    let k = indent(line) as int;
    k >= line.len() || line[k] == 36 || stripped(line.skip(k)).len() == 0
}

/// Tells whether a line is a comment (`$`) or blank.
pub fn is_skippable(line: &[u8]) -> (r: bool)
    ensures
        r == skippable(line@),
{
    let mut k: usize = 0;
    while k < line.len() && (line[k] == 32 || line[k] == 9)
        invariant
            k <= line@.len(),
            forall|i: int| 0 <= i < k ==> line@[i] == 32 || line@[i] == 9,
        decreases line@.len() - k,
    {
        k = k + 1;
    }
    proof {
        lemma_indent(line@, k as int);
    }
    if k >= line.len() {
        return true;
    }
    let rest: &[u8] = slice_subrange(line, k, line.len());
    assert(rest@ =~= line@.skip(k as int));
    line[k] == 36 || strip_eol(rest).len() == 0
}

/// The lines of `lines` that carry data.
pub open spec fn kept(lines: Seq<Seq<u8>>) -> Seq<Seq<u8>>
    decreases lines.len(),
{
    if lines.len() == 0 {
        Seq::empty()
    } else if skippable(lines.last()) {
        kept(lines.drop_last())
    } else {
        kept(lines.drop_last()).push(lines.last())
    }
}

pub proof fn lemma_kept_add(a: Seq<Seq<u8>>, b: Seq<Seq<u8>>)
    ensures
        kept(a + b) == kept(a) + kept(b),
    decreases b.len(),
{
    if b.len() == 0 {
        assert(a + b =~= a);
        assert(kept(a) + kept(b) =~= kept(a));
    } else {
        assert((a + b).drop_last() =~= a + b.drop_last());
        assert((a + b).last() == b.last());
        lemma_kept_add(a, b.drop_last());
        assert(kept(a + b) =~= kept(a) + kept(b));
    }
}

/// The data lines of a body.
pub open spec fn data_of(body: Seq<u8>) -> Seq<Seq<u8>> {
    kept(split(body, 10))
}

/// Cutting a body behind a line end cuts its data lines.
pub proof fn law_cut_between_lines(a: Seq<u8>, b: Seq<u8>)
    requires
        a.len() > 0,
        a.last() == 10,
    ensures
        data_of(a + b) == data_of(a) + data_of(b),
{
    let c = a.drop_last();
    assert(a + b =~= c + seq![10u8] + b);
    lemma_split_at(c, 10, b);
    lemma_kept_add(split(c, 10), split(b, 10));
    assert(split(a, 10) =~= split(c, 10).push(Seq::empty()));
    let none = Seq::<u8>::empty();
    assert(skippable(none));
    assert(split(a, 10).drop_last() =~= split(c, 10));
    assert(kept(split(a, 10)) == kept(split(c, 10)));
}

/// The data lines of a body.
pub fn body_lines<'a>(body: &'a [u8]) -> (r: Vec<&'a [u8]>)
    ensures
        slice_views(r@) == data_of(body@),
{
    let all: Vec<&'a [u8]> = split_bytes(body, 10);
    let ghost lines = slice_views(all@);
    let mut out: Vec<&'a [u8]> = Vec::new();
    assert(lines.take(0) =~= Seq::<Seq<u8>>::empty());
    assert(slice_views(out@) =~= kept(lines.take(0)));
    for i in 0..all.len()
        invariant
            lines == slice_views(all@),
            slice_views(out@) == kept(lines.take(i as int)),
    {
        let line: &'a [u8] = all[i];
        assert(lines.take(i + 1).drop_last() =~= lines.take(i as int));
        assert(lines.take(i + 1).last() == line@);
        if !is_skippable(line) {
            let ghost had = out@;
            out.push(line);
            assert(slice_views(out@) =~= slice_views(had).push(line@));
        }
    }
    assert(lines.take(lines.len() as int) =~= lines);
    out
}

} // verus!
