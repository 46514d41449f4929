//! Results of parts read state by state, and the same results of a whole block.

use crate::d3plot::extract::{law_positions_of, positions_of};
use crate::d3plot::query::lemma_block_within;
use crate::d3plot::reader::{file_at, lemma_within, D3plot};
use crate::d3plot::words::{float_at, floats_at};
use crate::d3plot::StateBlock;
use crate::element::{ids_of, is_block_count, is_block_max, record_in, records_in};
use vstd::prelude::*;

verus! {

/// State `k` of a gathered block stands behind the states before it.
proof fn lemma_gathered(d: D3plot, sel: Seq<usize>, off: nat, n: nat, k: int)
    requires
        0 <= k < sel.len(),
    ensures
        d.gather(sel, off, n).len() == sel.len() * n,
        0 <= k * n,
        k * n + n <= sel.len() * n,
        d.gather(sel, off, n).subrange(k * n, k * n + n) == d.state_floats(sel[k] as int, off, n),
    decreases sel.len(),
{
    let m = sel.len() - 1;
    let rest = sel.drop_last();
    let all = d.gather(sel, off, n);
    assert(sel.len() * n == m * n + n) by (nonlinear_arith)
        requires
            sel.len() == m + 1,
    ;
    assert(0 <= k * n && k * n + n <= sel.len() * n) by (nonlinear_arith)
        requires
            0 <= k,
            k + 1 <= sel.len(),
    ;
    if k < m {
        lemma_gathered(d, rest, off, n, k);
        assert(all.subrange(k * n, k * n + n) =~= d.gather(rest, off, n).subrange(
            k * n,
            k * n + n,
        ));
    } else {
        if m > 0 {
            lemma_gathered(d, rest, off, n, 0);
        } else {
            assert(rest =~= Seq::<usize>::empty());
            assert(0 * n == 0);
        }
        assert(all.subrange(k * n, k * n + n) =~= d.state_floats(sel.last() as int, off, n));
    }
}

/// The record of an element in a gathered block is the one read from the file.
proof fn lemma_record_same(d: D3plot, block: StateBlock, s: int, e: int)
    requires
        d.wf(),
        d.ctrl@.has_block(block),
        0 <= s < d.states@.len(),
        0 <= e < d.ctrl@.block_place(block).1,
    ensures
        ({
            let p = d.ctrl@.block_place(block);
            let data = d.gather(d.every_state(), p.0, p.1 * p.2);
            d.element_record(block, s, e as nat) == Some(record_in(data, p.1, p.2, s, e))
        }),
{
    let v = d.ctrl@;
    let p = v.block_place(block);
    let ws = v.wordsize;
    let n = p.1 * p.2;
    let sel = d.every_state();
    let data = d.gather(sel, p.0, n);
    lemma_block_within(v, block);
    d.lemma_place(s);
    assert(d.states@.len() == d.states.len());
    lemma_gathered(d, sel, p.0, n, s);
    let one = d.state_floats(s, p.0, n);
    let a = e * p.2;
    assert(a + p.2 <= n && 0 <= a) by (nonlinear_arith)
        requires
            0 <= e,
            e + 1 <= p.1,
            a == e * p.2,
            n == p.1 * p.2,
    ;
    assert((s * p.1 + e) * p.2 == s * n + a) by (nonlinear_arith)
        requires
            a == e * p.2,
            n == p.1 * p.2,
    ;
    lemma_within((p.0 + a) as nat, p.2, v.state_words(), ws);
    let base = d.states@[s].offset + p.0 * ws;
    assert(base + a * ws == d.states@[s].offset + (p.0 + a) * ws) by (nonlinear_arith)
        requires
            base == d.states@[s].offset + p.0 * ws,
    ;
    let rec = d.element_record(block, s, e as nat)->0;
    let found = record_in(data, p.1, p.2, s, e);
    assert(found =~= data.subrange(s * n, s * n + n).subrange(a, a + p.2));
    assert forall|i: int| 0 <= i < p.2 implies rec[i] == found[i] by {
        assert(one[a + i] == float_at(d.file_of(s), base + (a + i) * ws, ws));
        assert((a + i) * ws == a * ws + i * ws) by (nonlinear_arith);
    }
    assert(rec =~= found);
}

/// Reading a part state by state finds the same elements and the same records as
/// taking them out of the whole block, so the largest values and the counts above a
/// threshold are the same. Shells in rigid bodies have parts but no results; where
/// there are none of them the parts are as many as the records.
pub proof fn law_streaming_agrees<F: Fn(&[u64]) -> u64>(
    d: D3plot,
    block: StateBlock,
    part: i64,
    f: F,
    s: int,
)
    requires
        d.wf(),
        d.ctrl@.has_block(block),
        block is Solid || block is Shell,
        d.block_parts(block).len() <= d.ctrl@.block_place(block).1,
        0 <= s < d.states@.len(),
    ensures
        ({
            let p = d.ctrl@.block_place(block);
            let parts = d.block_parts(block);
            let data = d.gather(d.every_state(), p.0, p.1 * p.2);
            let streamed = positions_of(parts, part);
            let taken = positions_of(ids_of(parts, p.1), part);
            &&& streamed == taken
            &&& d.records(block, s, streamed) == records_in(data, p.1, p.2, s, taken)
            &&& forall|m: u64| #[trigger]
                d.is_part_max(f, block, streamed, s, m) <==> is_block_max(
                    f,
                    data,
                    p.1,
                    p.2,
                    taken,
                    s,
                    m,
                )
            &&& forall|t: u64, n: usize| #[trigger]
                d.is_part_count(f, block, streamed, s, t, n) <==> is_block_count(
                    f,
                    data,
                    p.1,
                    p.2,
                    taken,
                    s,
                    t,
                    n,
                )
        }),
{
    let p = d.ctrl@.block_place(block);
    let parts = d.block_parts(block);
    let data = d.gather(d.every_state(), p.0, p.1 * p.2);
    let idx = positions_of(parts, part);
    assert(p.1 <= usize::MAX);
    law_positions_of(parts, part);
    let a = d.records(block, s, idx);
    let b = records_in(data, p.1, p.2, s, idx);
    assert forall|i: int| 0 <= i < idx.len() implies a[i] == b[i] by {
        assert(idx[i] < parts.len());
        lemma_record_same(d, block, s, idx[i] as int);
    }
    assert(a =~= b);
}

/// A strided view shows the block: its piece `i`, as far behind its first byte as `i`
/// strides, holds the values of the block in the selected state `i`.
pub proof fn law_view_shows_block(d: D3plot, block: StateBlock, sel: Seq<usize>, i: int)
    requires
        d.wf(),
        d.ctrl@.wordsize == 4,
        forall|k: int| 0 <= k < sel.len() ==> #[trigger] sel[k] < d.states@.len(),
        d.evenly_spaced(sel, d.view_stride(sel)),
        0 <= i < sel.len(),
    ensures
        ({
            let p = d.ctrl@.block_place(block);
            let first = d.states@[sel[0] as int];
            floats_at(
                file_at(d.files@, first.file as int),
                first.offset + 4 * p.0 + i * d.view_stride(sel),
                p.1 * p.2,
                4,
            ) == d.state_floats(sel[i] as int, p.0, p.1 * p.2)
        }),
{
    lemma_even(d, sel, i);
}

/// The selected state `i` stands `i` strides behind the first, in its file.
proof fn lemma_even(d: D3plot, sel: Seq<usize>, i: int)
    requires
        d.evenly_spaced(sel, d.view_stride(sel)),
        0 <= i < sel.len(),
    ensures
        d.states@[sel[i] as int].file == d.states@[sel[0] as int].file,
        d.states@[sel[i] as int].offset == d.states@[sel[0] as int].offset + i * d.view_stride(sel),
    decreases i,
{
    let step = d.view_stride(sel);
    if i > 0 {
        lemma_even(d, sel, i - 1);
        assert(d.even_step(sel, i - 1, step));
        assert(i * step == (i - 1) * step + step) by (nonlinear_arith);
    } else {
        assert(0 * step == 0);
    }
}

} // verus!
