//! Block bodies in chunks of whole lines.

use crate::deck::file::{lies_in, same_name, Block, CardFormat, ParsedFile};
use crate::deck::lines::{data_of, find_byte, law_cut_between_lines};
use crate::deck::rows::{all_wf, block_rows, rows_up_to, Line};
use vstd::prelude::*;
use vstd::slice::slice_subrange;

verus! {

/// The least number of bytes in a chunk.
pub const MIN_CHUNK: usize = 262144;

/// The lines with their layout.
pub open spec fn tagged(lines: Seq<Seq<u8>>, format: CardFormat) -> Seq<Line> {
    Seq::new(lines.len(), |i: int| (lines[i], format))
}

/// The data lines of the first `n` chunks.
pub open spec fn chunk_rows(chunks: Seq<(&[u8], CardFormat)>, n: nat) -> Seq<Line>
    decreases n,
{
    if n == 0 {
        Seq::empty()
    } else {
        chunk_rows(chunks, (n - 1) as nat) + tagged(data_of(chunks[n - 1].0@), chunks[n - 1].1)
    }
}

pub proof fn lemma_chunk_rows_push(
    chunks: Seq<(&[u8], CardFormat)>,
    x: (&[u8], CardFormat),
    n: nat,
)
    requires
        n <= chunks.len(),
    ensures
        chunk_rows(chunks.push(x), n) == chunk_rows(chunks, n),
    decreases n,
{
    if n > 0 {
        lemma_chunk_rows_push(chunks, x, (n - 1) as nat);
        assert(chunks.push(x)[n - 1] == chunks[n - 1]);
    }
}

proof fn lemma_tagged_add(a: Seq<Seq<u8>>, b: Seq<Seq<u8>>, format: CardFormat)
    ensures
        tagged(a + b, format) == tagged(a, format) + tagged(b, format),
{
    assert(tagged(a + b, format) =~= tagged(a, format) + tagged(b, format));
}

/// Calls `rayon::current_num_threads`. How many threads there are depends on the
/// machine and its settings, so nothing is said of the number.
#[verifier::external_body]
fn thread_count() -> (r: usize) {
    rayon::current_num_threads()
}

/// Bytes per chunk: the bytes of all bodies spread over twice the threads, and at
/// least the least number.
fn chunk_size(total: usize, threads: usize) -> (r: usize)
    ensures
        r >= MIN_CHUNK,
        r == MIN_CHUNK || (threads > 0 && 2 * threads * r >= total && 2 * threads * (r - 1)
            < total),
{
    let target: u128 = if threads == 0 { 1 } else { 2 * (threads as u128) };
    let t: u128 = total as u128;
    let whole: u128 = t / target;
    let part: u128 = t % target;
    let share: u128 = if part == 0 { whole } else { whole + 1 };
    assert(t == target * whole + part && part < target) by (nonlinear_arith)
        requires
            target > 0,
            whole == t / target,
            part == t % target,
    ;
    assert(share <= t) by (nonlinear_arith)
        requires
            target > 0,
            t == target * whole + part,
            share == if part == 0 {
                whole as int
            } else {
                whole + 1
            },
    ;
    assert(target * share >= t && (share > 0 ==> target * (share - 1) < t)) by (nonlinear_arith)
        requires
            target > 0,
            part < target,
            t == target * whole + part,
            share == if part == 0 {
                whole as int
            } else {
                whole + 1
            },
    ;
    if threads == 0 || share <= MIN_CHUNK as u128 {
        MIN_CHUNK
    } else {
        share as usize
    }
}

/// Cuts a body into chunks of whole lines of about `size` bytes.
fn cut_body<'a>(
    body: &'a [u8],
    format: CardFormat,
    size: usize,
    chunks: &mut Vec<(&'a [u8], CardFormat)>,
)
    requires
        size > 0,
    ensures
        chunk_rows(final(chunks)@, final(chunks)@.len()) == chunk_rows(
            old(chunks)@,
            old(chunks)@.len(),
        ) + tagged(data_of(body@), format),
{
    let n: usize = body.len();
    let ghost first = chunk_rows(chunks@, chunks@.len());
    let ghost goal = first + tagged(data_of(body@), format);
    let mut start: usize = 0;
    assert(body@.skip(0) =~= body@);
    proof {
        lemma_no_data();
    }
    while start < n
        invariant
            n == body@.len(),
            size > 0,
            start <= n,
            data_of(Seq::<u8>::empty()).len() == 0,
            chunk_rows(chunks@, chunks@.len()) + tagged(data_of(body@.skip(start as int)), format)
                == goal,
        decreases n - start,
    {
        let mut end: usize = if size >= n - start { n } else { start + size };
        if end < n {
            let tail: &'a [u8] = slice_subrange(body, end, n);
            match find_byte(10, tail) {
                Some(off) => {
                    assert(body@[end + off] == tail@[off as int]);
                    end = end + off + 1;
                },
                None => {
                    end = n;
                },
            }
        }
        let chunk: &'a [u8] = slice_subrange(body, start, end);
        let ghost before = chunks@;
        let ghost a = chunk@;
        let ghost rest = body@.skip(end as int);
        chunks.push((chunk, format));
        proof {
            lemma_chunk_rows_push(before, (chunk, format), before.len());
            assert(chunks@.last() == (chunk, format));
            assert(body@.skip(start as int) =~= a + rest);
            if end < n {
                law_cut_between_lines(a, rest);
            } else {
                assert(rest =~= Seq::<u8>::empty());
                assert(a + rest =~= a);
                assert(data_of(a) + data_of(rest) =~= data_of(a));
            }
            lemma_tagged_add(data_of(a), data_of(rest), format);
            let r = chunk_rows(before, before.len());
            assert(r + (tagged(data_of(a), format) + tagged(data_of(rest), format)) =~= r + tagged(
                data_of(a),
                format,
            ) + tagged(data_of(rest), format));
        }
        start = end;
    }
    assert(body@.skip(start as int) =~= Seq::<u8>::empty());
    assert(chunk_rows(chunks@, chunks@.len()) =~= goal);
}

/// Nothing holds no data.
proof fn lemma_no_data()
    ensures
        data_of(Seq::<u8>::empty()).len() == 0,
{
    let none = Seq::<u8>::empty();
    assert(crate::deck::lines::split(none, 10) =~= seq![none]);
    assert(crate::deck::lines::skippable(none));
    assert(seq![none].drop_last() =~= Seq::<Seq<u8>>::empty());
    reveal_with_fuel(crate::deck::lines::kept, 2);
}

/// The bodies of the blocks of a keyword, in chunks of whole lines: the data lines
/// of the chunks are those of the blocks, in order, however many threads there are.
pub fn collect_chunks<'a>(files: &'a [ParsedFile], keyword: &str) -> (r: Vec<(&'a [u8], CardFormat)>)
    requires
        all_wf(files@),
    ensures
        chunk_rows(r@, r@.len()) == rows_up_to(
            files@,
            files@.len(),
            0,
            vstd::utf8::encode_utf8(keyword@),
            1,
            true,
            0,
        ),
{
    let key: &[u8] = keyword.as_bytes();
    let mut total: usize = 0;
    let mut bodies: Vec<(&'a [u8], CardFormat)> = Vec::new();
    for fi in 0..files.len()
        invariant
            all_wf(files@),
            key@ == vstd::utf8::encode_utf8(keyword@),
            chunk_rows(bodies@, bodies@.len()) == rows_up_to(
                files@,
                fi as nat,
                0,
                key@,
                1,
                true,
                0,
            ),
    {
        let parsed: &'a ParsedFile = &files[fi];
        assert(parsed.wf());
        for bi in 0..parsed.blocks.len()
            invariant
                fi < files@.len(),
                *parsed == files@[fi as int],
                parsed.wf(),
                chunk_rows(bodies@, bodies@.len()) == rows_up_to(
                    files@,
                    fi as nat,
                    bi as nat,
                    key@,
                    1,
                    true,
                    0,
                ),
        {
            let block: &'a Block = &parsed.blocks[bi];
            assert(lies_in(parsed.blocks@[bi as int], parsed.src@.len()));
            if same_name(parsed.keyword_name(block), key) {
                let body: &'a [u8] = parsed.body(block);
                total = if body.len() > usize::MAX - total { usize::MAX } else { total
                    + body.len() };
                let ghost before = bodies@;
                bodies.push((body, block.format));
                proof {
                    lemma_chunk_rows_push(before, (body, block.format), before.len());
                    assert(bodies@.last() == (body, block.format));
                    assert(tagged(data_of(body@), block.format) =~= block_rows(
                        data_of(body@),
                        block.format,
                        1,
                        true,
                        0,
                    ));
                }
            }
        }
    }
    let size: usize = chunk_size(total, thread_count());
    let mut chunks: Vec<(&'a [u8], CardFormat)> = Vec::new();
    for i in 0..bodies.len()
        invariant
            size > 0,
            chunk_rows(chunks@, chunks@.len()) == chunk_rows(bodies@, i as nat),
    {
        let (body, format) = bodies[i];
        cut_body(body, format, size, &mut chunks);
    }
    chunks
}

} // verus!
