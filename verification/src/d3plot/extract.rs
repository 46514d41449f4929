//! Result blocks: selection of states, extraction of whole blocks and single
//! element records, and reductions over the elements of a part.

use crate::d3plot::block::{component_name, element_component_names, ResultBlock};
use crate::d3plot::control::lemma_state_terms;
use crate::d3plot::mesh::record_parts;
use crate::d3plot::query::{lemma_block_within, BlockArray};
use crate::d3plot::reader::{lemma_within, D3plot, StateLoc};
use crate::d3plot::words::{end_of, floats_at, read_floats_at};
use crate::d3plot::{D3plotError, StateBlock};
use crate::ieee::{double_lt, is_nan, less, nan, widened};
use crate::le::{le_at, read_u32_le, read_u64_le};
use crate::text::{dec, dec_int, push_dec, push_dec_int};
use vstd::prelude::*;

verus! {

/// The pattern of negative infinity.
pub const NEG_INFINITY: u64 = 0xFFF0_0000_0000_0000;

/// The state that index `i` stands for among `n`: negative ones count from the end.
pub open spec fn state_index(i: i64, n: nat) -> int {
    if i < 0 {
        i + n
    } else {
        i as int
    }
}

pub open spec fn index_message(i: i64, n: nat) -> Seq<char> {
    "state index "@ + dec_int(i as int) + " out of range ("@ + dec(n) + " states)"@
}

/// The first index from `k` on that is out of range.
pub open spec fn first_bad(sel: Seq<i64>, n: nat, k: int) -> Option<i64>
    decreases sel.len() - k,
{
    if k >= sel.len() {
        None
    } else if state_index(sel[k], n) < 0 || state_index(sel[k], n) >= n {
        Some(sel[k])
    } else {
        first_bad(sel, n, k + 1)
    }
}

/// Reads `n` 32-bit words.
fn read_singles(b: &[u8], off: usize, n: usize) -> (r: Vec<u32>)
    requires
        off + n * 4 <= b@.len(),
    ensures
        r@.len() == n,
        forall|i: int| 0 <= i < n ==> r@[i] == le_at(b@, off + i * 4, 4),
{
    let len: usize = b.len();
    let mut out: Vec<u32> = Vec::new();
    for i in 0..n
        invariant
            off + n * 4 <= len,
            len == b@.len(),
            out@.len() == i,
            forall|k: int| 0 <= k < i ==> out@[k] == le_at(b@, off + k * 4, 4),
    {
        out.push(read_u32_le(b, off + i * 4));
    }
    out
}

/// Reads `n` 64-bit words.
fn read_doubles(b: &[u8], off: usize, n: usize) -> (r: Vec<u64>)
    requires
        off + n * 8 <= b@.len(),
    ensures
        r@.len() == n,
        forall|i: int| 0 <= i < n ==> r@[i] == le_at(b@, off + i * 8, 8),
{
    let len: usize = b.len();
    let mut out: Vec<u64> = Vec::new();
    for i in 0..n
        invariant
            off + n * 8 <= len,
            len == b@.len(),
            out@.len() == i,
            forall|k: int| 0 <= k < i ==> out@[k] == le_at(b@, off + k * 8, 8),
    {
        out.push(read_u64_le(b, off + i * 8));
    }
    out
}

/// The numbers held by a block array, as unsigned words.
pub open spec fn array_words(a: BlockArray) -> Seq<nat> {
    match a {
        BlockArray::F32(v) => Seq::new(v@.len(), |i: int| v@[i] as nat),
        BlockArray::F64(v) => Seq::new(v@.len(), |i: int| v@[i] as nat),
    }
}

/// The function `f` may give `q` for the record `rec`.
pub open spec fn gives<F: Fn(&[u64]) -> u64>(f: F, rec: Seq<u64>, q: u64) -> bool {
    exists|x: &[u64]| x@ == rec && #[trigger] call_ensures(f, (x,), q)
}

/// The values of a quantity over records: one for each record that is there.
pub open spec fn quantities<F: Fn(&[u64]) -> u64>(
    f: F,
    recs: Seq<Option<Seq<u64>>>,
    q: Seq<Option<u64>>,
) -> bool {
    &&& q.len() == recs.len()
    &&& forall|i: int|
        0 <= i < recs.len() ==> match (#[trigger] recs[i]) {
            None => q[i] is None,
            Some(r) => q[i] matches Some(v) && gives(f, r, v),
        }
}

/// The larger of two doubles; the other one where one is a NaN.
pub open spec fn larger(m: u64, v: u64) -> u64 {
    if is_nan(m) || double_lt(m, v) {
        v
    } else {
        m
    }
}

/// The largest of the values, a NaN only where there is no number; `None` of none.
pub open spec fn largest(q: Seq<Option<u64>>) -> Option<u64>
    decreases q.len(),
{
    if q.len() == 0 {
        None
    } else {
        match (largest(q.drop_last()), q.last()) {
            (Some(m), Some(v)) => Some(larger(m, v)),
            (None, v) => v,
            (m, None) => m,
        }
    }
}

/// The largest of the values; 0 of none.
pub open spec fn largest_or_zero(q: Seq<Option<u64>>) -> u64 {
    match largest(q) {
        Some(m) => m,
        None => 0,
    }
}

/// The largest value is one of the values, and none is above it.
pub proof fn law_largest(q: Seq<Option<u64>>)
    ensures
        largest(q) is Some ==> q.contains(largest(q)),
        forall|i: int|
            0 <= i < q.len() && (#[trigger] q[i]) is Some ==> largest(q) is Some && !double_lt(
                largest(q)->0,
                q[i]->0,
            ) && (is_nan(largest(q)->0) ==> is_nan(q[i]->0)),
    decreases q.len(),
{
    if q.len() > 0 {
        let rest = q.drop_last();
        law_largest(rest);
        if largest(rest) is Some {
            let k = rest.index_of(largest(rest));
            assert(q[k] == rest[k]);
        }
        assert(q[q.len() - 1] == q.last());
        assert forall|i: int| 0 <= i < q.len() && (#[trigger] q[i]) is Some implies largest(
            q,
        ) is Some && !double_lt(largest(q)->0, q[i]->0) && (is_nan(largest(q)->0) ==> is_nan(
            q[i]->0,
        )) by {
            if i < rest.len() {
                assert(rest[i] == q[i]);
            }
        }
    }
}

/// Number of values above `t`.
pub open spec fn count_above(t: u64, q: Seq<Option<u64>>) -> nat
    decreases q.len(),
{
    if q.len() == 0 {
        0
    } else {
        count_above(t, q.drop_last()) + (match q.last() {
            Some(v) => if double_lt(t, v) {
                1nat
            } else {
                0
            },
            None => 0,
        })
    }
}

/// The position of the first largest value above negative infinity and that
/// value; the first position and negative infinity when there is none.
pub open spec fn arg_fold(q: Seq<Option<u64>>) -> (int, u64)
    decreases q.len(),
{
    if q.len() == 0 {
        (0, NEG_INFINITY)
    } else {
        let rest = arg_fold(q.drop_last());
        match q.last() {
            Some(v) => if double_lt(rest.1, v) {
                (q.len() - 1, v)
            } else {
                rest
            },
            None => rest,
        }
    }
}

/// The positions at which `part` stands among `parts`.
pub open spec fn positions_of(parts: Seq<i64>, part: i64) -> Seq<usize>
    decreases parts.len(),
{
    if parts.len() == 0 {
        Seq::empty()
    } else if parts.last() == part {
        positions_of(parts.drop_last(), part).push((parts.len() - 1) as usize)
    } else {
        positions_of(parts.drop_last(), part)
    }
}

/// The positions of a part are those of its elements, in growing order.
pub proof fn law_positions_of(parts: Seq<i64>, part: i64)
    requires
        parts.len() <= usize::MAX,
    ensures
        forall|i: int|
            0 <= i < positions_of(parts, part).len() ==> {
                let p = #[trigger] positions_of(parts, part)[i];
                p < parts.len() && parts[p as int] == part
            },
        forall|i: int, j: int|
            0 <= i < j < positions_of(parts, part).len() ==> positions_of(parts, part)[i]
                < positions_of(parts, part)[j],
        forall|e: int|
            0 <= e < parts.len() && parts[e] == part ==> positions_of(parts, part).contains(
                e as usize,
            ),
    decreases parts.len(),
{
    if parts.len() > 0 {
        let rest = parts.drop_last();
        law_positions_of(rest, part);
        let p = positions_of(parts, part);
        let q = positions_of(rest, part);
        assert forall|e: int| 0 <= e < parts.len() && parts[e] == part implies p.contains(
            e as usize,
        ) by {
            if e < rest.len() {
                assert(rest[e] == part);
                assert(q.contains(e as usize));
                let k = choose|k: int| 0 <= k < q.len() && q[k] == e as usize;
                assert(p[k] == e as usize);
            } else {
                assert(p[p.len() - 1] == e as usize);
            }
        }
    }
}

/// The positions at which `part` stands.
pub fn part_indices(parts: &[i64], part: i64) -> (r: Vec<usize>)
    ensures
        r@ == positions_of(parts@, part),
{
    let mut out: Vec<usize> = Vec::new();
    assert(out@ =~= positions_of(parts@.take(0), part));
    for i in 0..parts.len()
        invariant
            out@ == positions_of(parts@.take(i as int), part),
    {
        proof {
            assert(parts@.take(i + 1).drop_last() =~= parts@.take(i as int));
        }
        if parts[i] == part {
            out.push(i);
        }
    }
    assert(parts@.take(parts@.len() as int) =~= parts@);
    out
}

impl D3plot {
    /// Entities and values per entity of a result block; `None` when it is absent.
    pub fn block_layout(&self, block: StateBlock) -> (r: Option<(usize, usize)>)
        requires
            self.wf(),
        ensures
            r is Some <==> self.ctrl@.has_block(block),
            r matches Some(p) ==> p.0 == self.ctrl@.block_place(block).1 && p.1
                == self.ctrl@.block_place(block).2,
    {
        match self.ctrl.block_spec(block) {
            Some((_, count, vars)) => Some((count, vars)),
            None => None,
        }
    }

    /// `r` is the selection `sel` of states, or the complaint about an index.
    pub open spec fn is_selection(
        self,
        sel: Option<&[i64]>,
        r: Result<Vec<usize>, D3plotError>,
    ) -> bool {
        match sel {
            None => r matches Ok(v) && v@ == self.every_state(),
            Some(s) => match first_bad(s@, self.states@.len(), 0) {
                Some(i) => r matches Err(e) && e.says(index_message(i, self.states@.len())),
                None => r matches Ok(v) && v@ == Seq::new(
                    s@.len(),
                    |k: int| state_index(s@[k], self.states@.len()) as usize,
                ),
            },
        }
    }

    /// Resolves a selection of states: all of them for `None`; negative indices
    /// count from the end.
    pub fn resolve_states(&self, sel: Option<&[i64]>) -> (r: Result<Vec<usize>, D3plotError>)
        requires
            self.states@.len() <= i64::MAX,
        ensures
            self.is_selection(sel, r),
    {
        match sel {
            None => Ok(self.all_states()),
            Some(s) => {
                let n: i64 = self.states.len() as i64;
                let mut out: Vec<usize> = Vec::new();
                for k in 0..s.len()
                    invariant
                        n == self.states@.len(),
                        sel == Some(s),
                        first_bad(s@, n as nat, k as int) == first_bad(s@, n as nat, 0),
                        out@.len() == k,
                        forall|i: int|
                            0 <= i < k ==> out@[i] == state_index(s@[i], n as nat) as usize,
                {
                    let i: i64 = s[k];
                    let j: i64 = if i < 0 { i + n } else { i };
                    if j < 0 || j >= n {
                        let mut m: String = String::from_str("state index ");
                        push_dec_int(&mut m, i);
                        m.append(" out of range (");
                        push_dec(&mut m, n as u64);
                        m.append(" states)");
                        return Err(D3plotError::Unsupported(m));
                    }
                    out.push(j as usize);
                }
                assert(out@ =~= Seq::new(
                    s@.len(),
                    |k: int| state_index(s@[k], self.states@.len()) as usize,
                ));
                Ok(out)
            },
        }
    }

    /// The selected states stand in one file, each `stride` bytes behind the one
    /// before.
    pub open spec fn evenly_spaced(self, sel: Seq<usize>, stride: int) -> bool {
        forall|i: int| 0 <= i < sel.len() - 1 ==> #[trigger] self.even_step(sel, i, stride)
    }

    /// State `i + 1` of the selection stands `stride` bytes behind state `i`, in the
    /// file of the first one.
    pub open spec fn even_step(self, sel: Seq<usize>, i: int, stride: int) -> bool {
        &&& self.states@[sel[i + 1] as int].file == self.states@[sel[0] as int].file
        &&& self.states@[sel[i + 1] as int].offset - self.states@[sel[i] as int].offset == stride
    }

    /// The distance of the first two selected states, or the size of a state.
    pub open spec fn view_stride(self, sel: Seq<usize>) -> int {
        if sel.len() >= 2 {
            self.states@[sel[1] as int].offset - self.states@[sel[0] as int].offset
        } else {
            self.ctrl@.bytes_per_state() as int
        }
    }

    /// `x` is the file, first byte, shape and distance of the states of a view.
    pub open spec fn is_block_view(
        self,
        block: StateBlock,
        sel: Seq<usize>,
        x: (usize, usize, [usize; 3], usize),
    ) -> bool {
        let p = self.ctrl@.block_place(block);
        let first = self.states@[sel[0] as int];
        &&& x.0 == first.file
        &&& x.1 == first.offset + 4 * p.0
        &&& x.2@ == seq![sel.len() as usize, p.1 as usize, p.2 as usize]
        &&& x.3 == self.view_stride(sel)
    }

    /// The file, first byte, shape and distance of a strided view of a block over
    /// the selected states. `None` when there is no such view: the block is
    /// absent, the precision is double, nothing is selected, or the states do not
    /// lie in one file at one positive distance.
    pub fn block_view(&self, block: StateBlock, sel: &[usize]) -> (r: Option<
        (usize, usize, [usize; 3], usize),
    >)
        requires
            self.wf(),
            forall|i: int| 0 <= i < sel@.len() ==> #[trigger] sel@[i] < self.states@.len(),
        ensures
            r is Some <==> self.ctrl.wordsize == 4 && sel@.len() > 0 && self.ctrl@.has_block(block)
                && self.view_stride(sel@) > 0 && self.evenly_spaced(sel@, self.view_stride(sel@)),
            r matches Some(x) ==> self.is_block_view(block, sel@, x),
    {
        if self.ctrl.wordsize != 4 || sel.len() == 0 {
            return None;
        }
        let (off, count, vars): (usize, usize, usize) = match self.ctrl.block_spec(block) {
            Some(x) => x,
            None => return None,
        };
        assert(sel@[0] < self.states@.len());
        let first: StateLoc = self.states[sel[0]];
        let stride: u64 = if sel.len() >= 2 {
            assert(sel@[1] < self.states@.len());
            let second: StateLoc = self.states[sel[1]];
            if second.offset <= first.offset {
                return None;
            }
            second.offset - first.offset
        } else {
            self.ctrl.bytes_per_state()
        };
        let ghost want = self.view_stride(sel@);
        let mut i: usize = 0;
        while i + 1 < sel.len()
            invariant
                self.wf(),
                forall|i: int| 0 <= i < sel@.len() ==> #[trigger] sel@[i] < self.states@.len(),
                sel@.len() > 0,
                i < sel@.len(),
                i + 1 <= usize::MAX,
                first == self.states@[sel@[0] as int],
                stride == want,
                want == self.view_stride(sel@),
                forall|k: int| 0 <= k < i ==> #[trigger] self.even_step(sel@, k, want),
            decreases sel@.len() - i,
        {
            assert(sel@[i as int] < self.states@.len());
            assert(sel@[i + 1] < self.states@.len());
            let a: StateLoc = self.states[sel[i]];
            let c: StateLoc = self.states[sel[i + 1]];
            if c.file != first.file || c.offset < a.offset || c.offset - a.offset != stride {
                assert(want > 0 ==> !self.even_step(sel@, i as int, want));
                return None;
            }
            i = i + 1;
        }
        proof {
            self.lemma_place(sel@[0] as int);
            lemma_block_within(self.ctrl@, block);
            lemma_state_terms(self.ctrl@);
            lemma_within(
                off as nat,
                count as nat * vars as nat,
                self.ctrl@.state_words(),
                4,
            );
            if sel@.len() >= 2 {
                self.lemma_place(sel@[1] as int);
            }
        }
        let len: usize = self.files[first.file].len();
        assert(first.offset + off * 4 <= len);
        let dims: [usize; 3] = [sel.len(), count, vars];
        assert(dims@ =~= seq![sel@.len() as usize, count, vars]);
        Some((first.file, first.offset as usize + off * 4, dims, stride as usize))
    }

    /// The `n` words of state `s` from word `off` of the state on, as unsigned
    /// numbers.
    pub open spec fn state_raws(self, s: int, off: nat, n: nat) -> Seq<nat> {
        let ws = self.ctrl@.wordsize;
        Seq::new(
            n,
            |i: int| le_at(self.file_of(s), self.states@[s].offset + off * ws + i * ws, ws),
        )
    }

    /// The same words of each of the selected states.
    pub open spec fn gather_raws(self, sel: Seq<usize>, off: nat, n: nat) -> Seq<nat>
        decreases sel.len(),
    {
        if sel.len() == 0 {
            Seq::empty()
        } else {
            self.gather_raws(sel.drop_last(), off, n) + self.state_raws(sel.last() as int, off, n)
        }
    }

    /// The doubles of the selected states are the words in double precision.
    proof fn lemma_gather(self, sel: Seq<usize>, off: nat, n: nat)
        requires
            self.wf(),
            forall|i: int| 0 <= i < sel.len() ==> #[trigger] sel[i] < self.states@.len(),
            off + n <= self.ctrl@.state_words(),
        ensures
            self.gather(sel, off, n).len() == self.gather_raws(sel, off, n).len(),
            forall|i: int|
                0 <= i < self.gather(sel, off, n).len() ==> #[trigger] self.gather(sel, off, n)[i]
                    == (if self.ctrl@.wordsize == 4 {
                    widened(self.gather_raws(sel, off, n)[i] as u32) as u64
                } else {
                    self.gather_raws(sel, off, n)[i] as u64
                }),
        decreases sel.len(),
    {
        if sel.len() > 0 {
            let rest = sel.drop_last();
            assert forall|i: int| 0 <= i < rest.len() implies #[trigger] rest[i] < self.states@.len() by {
                assert(rest[i] == sel[i]);
            }
            self.lemma_gather(rest, off, n);
            let s = sel.last() as int;
            assert(sel[sel.len() - 1] < self.states@.len());
            self.lemma_place(s);
            let ws = self.ctrl@.wordsize;
            let f = self.state_floats(s, off, n);
            let r = self.state_raws(s, off, n);
            assert forall|i: int| 0 <= i < n implies #[trigger] f[i] == (if ws == 4 {
                widened(r[i] as u32) as u64
            } else {
                r[i] as u64
            }) by {
                lemma_within((off + i) as nat, 1, self.ctrl@.state_words(), ws);
                assert((off + i) * ws == off * ws + i * ws) by (nonlinear_arith);
            }
        }
    }

    /// `x` holds the result block `block` over the states `sel`, and its shape.
    pub open spec fn is_block_data(
        self,
        block: StateBlock,
        sel: Seq<usize>,
        x: (BlockArray, [usize; 3]),
    ) -> bool {
        let p = self.ctrl@.block_place(block);
        &&& x.1@ == seq![sel.len() as usize, p.1 as usize, p.2 as usize]
        &&& (x.0 is F32 <==> self.ctrl.wordsize == 4)
        &&& array_words(x.0) == self.gather_raws(sel, p.0, p.1 * p.2)
        &&& x.0.doubles() == self.gather(sel, p.0, p.1 * p.2)
    }

    /// The values of a result block over the selected states, one state after the
    /// other, in the precision of the file, with their shape. `None` when the block
    /// is absent.
    pub fn block_data(&self, block: StateBlock, sel: &[usize]) -> (r: Option<
        (BlockArray, [usize; 3]),
    >)
        requires
            self.wf(),
            forall|i: int| 0 <= i < sel@.len() ==> #[trigger] sel@[i] < self.states@.len(),
        ensures
            r is Some <==> self.ctrl@.has_block(block),
            r matches Some(x) ==> self.is_block_data(block, sel@, x),
    {
        let (off, count, vars): (usize, usize, usize) = match self.ctrl.block_spec(block) {
            Some(x) => x,
            None => return None,
        };
        proof {
            lemma_block_within(self.ctrl@, block);
            self.lemma_gather(sel@, off as nat, (count * vars) as nat);
        }
        let per: usize = count * vars;
        let dims: [usize; 3] = [sel.len(), count, vars];
        assert(dims@ =~= seq![sel@.len() as usize, count, vars]);
        let ghost raws = self.gather_raws(sel@, off as nat, per as nat);
        let arr: BlockArray = if self.ctrl.wordsize == 4 {
            let mut out: Vec<u32> = Vec::new();
            assert(array_words(BlockArray::F32(out)) =~= self.gather_raws(
                sel@.take(0),
                off as nat,
                per as nat,
            ));
            for k in 0..sel.len()
                invariant
                    self.wf(),
                    self.ctrl.wordsize == 4,
                    forall|i: int| 0 <= i < sel@.len() ==> #[trigger] sel@[i] < self.states@.len(),
                    off + per <= self.ctrl@.state_words(),
                    array_words(BlockArray::F32(out)) == self.gather_raws(
                        sel@.take(k as int),
                        off as nat,
                        per as nat,
                    ),
            {
                let s: usize = sel[k];
                let loc: StateLoc = self.states[s];
                proof {
                    self.lemma_place(s as int);
                    lemma_within(off as nat, per as nat, self.ctrl@.state_words(), 4);
                }
                let len: usize = self.files[loc.file].len();
                assert(loc.offset + off * 4 + per * 4 <= len);
                let at: usize = loc.offset as usize + off * 4;
                let mut part: Vec<u32> = read_singles(self.files[loc.file].as_slice(), at, per);
                let ghost held = out@;
                let ghost piece = part@;
                out.append(&mut part);
                proof {
                    let sub = sel@.take(k + 1);
                    assert(sub.drop_last() =~= sel@.take(k as int));
                    assert(sub.last() == s);
                    let raw = self.state_raws(s as int, off as nat, per as nat);
                    assert(Seq::new(piece.len(), |i: int| piece[i] as nat) =~= raw);
                    assert(array_words(BlockArray::F32(out)) =~= Seq::new(
                        held.len(),
                        |i: int| held[i] as nat,
                    ) + raw);
                }
            }
            BlockArray::F32(out)
        } else {
            let mut out: Vec<u64> = Vec::new();
            assert(array_words(BlockArray::F64(out)) =~= self.gather_raws(
                sel@.take(0),
                off as nat,
                per as nat,
            ));
            for k in 0..sel.len()
                invariant
                    self.wf(),
                    self.ctrl.wordsize == 8,
                    forall|i: int| 0 <= i < sel@.len() ==> #[trigger] sel@[i] < self.states@.len(),
                    off + per <= self.ctrl@.state_words(),
                    array_words(BlockArray::F64(out)) == self.gather_raws(
                        sel@.take(k as int),
                        off as nat,
                        per as nat,
                    ),
            {
                let s: usize = sel[k];
                let loc: StateLoc = self.states[s];
                proof {
                    self.lemma_place(s as int);
                    lemma_within(off as nat, per as nat, self.ctrl@.state_words(), 8);
                }
                let len: usize = self.files[loc.file].len();
                assert(loc.offset + off * 8 + per * 8 <= len);
                let at: usize = loc.offset as usize + off * 8;
                let mut part: Vec<u64> = read_doubles(self.files[loc.file].as_slice(), at, per);
                let ghost held = out@;
                let ghost piece = part@;
                out.append(&mut part);
                proof {
                    let sub = sel@.take(k + 1);
                    assert(sub.drop_last() =~= sel@.take(k as int));
                    assert(sub.last() == s);
                    let raw = self.state_raws(s as int, off as nat, per as nat);
                    assert(Seq::new(piece.len(), |i: int| piece[i] as nat) =~= raw);
                    assert(array_words(BlockArray::F64(out)) =~= Seq::new(
                        held.len(),
                        |i: int| held[i] as nat,
                    ) + raw);
                }
            }
            BlockArray::F64(out)
        };
        proof {
            assert(sel@.take(sel@.len() as int) =~= sel@);
            let w = array_words(arr);
            assert(w == raws);
            let g = self.gather(sel@, off as nat, per as nat);
            assert(arr.doubles().len() == g.len());
            assert forall|i: int| 0 <= i < g.len() implies arr.doubles()[i] == g[i] by {
                assert(w[i] == raws[i]);
            }
            assert(arr.doubles() =~= g);
        }
        Some((arr, dims))
    }

    /// A result block over the selected states, states by elements by values, with
    /// the standard labels of an element record.
    pub fn element_results(&self, block: StateBlock, sel: &[usize]) -> (r: Option<ResultBlock>)
        requires
            self.wf(),
            forall|i: int| 0 <= i < sel@.len() ==> #[trigger] sel@[i] < self.states@.len(),
        ensures
            r is Some <==> self.ctrl@.has_block(block),
            r matches Some(b) ==> self.is_labelled_block(b, block, sel@),
    {
        let (arr, dims): (BlockArray, [usize; 3]) = match self.block_data(block, sel) {
            Some(x) => x,
            None => return None,
        };
        let mut shape: Vec<usize> = Vec::new();
        shape.push(dims[0]);
        shape.push(dims[1]);
        shape.push(dims[2]);
        assert(shape@ =~= dims@);
        Some(ResultBlock::named(shape, element_component_names(dims[2]), arr.to_f64()))
    }

    /// `b` is the result block `block` over the states `sel`, labelled.
    pub open spec fn is_labelled_block(
        self,
        b: ResultBlock,
        block: StateBlock,
        sel: Seq<usize>,
    ) -> bool {
        let p = self.ctrl@.block_place(block);
        &&& b.dims@ == seq![sel.len() as usize, p.1 as usize, p.2 as usize]
        &&& b.data@ == self.gather(sel, p.0, p.1 * p.2)
        &&& b.components@.len() == p.2
        &&& forall|i: int|
            0 <= i < p.2 ==> (#[trigger] b.components@[i])@ == component_name(i as nat)
    }

    fn all_results(&self, block: StateBlock) -> (r: Option<ResultBlock>)
        requires
            self.wf(),
        ensures
            r is Some <==> self.ctrl@.has_block(block),
            r matches Some(b) ==> self.is_labelled_block(b, block, self.every_state()),
    {
        let all: Vec<usize> = self.all_states();
        self.element_results(block, all.as_slice())
    }

    /// All results of the solids.
    pub fn solid_results(&self) -> (r: Option<ResultBlock>)
        requires
            self.wf(),
        ensures
            r is Some <==> self.ctrl@.has_block(StateBlock::Solid),
            r matches Some(b) ==> self.is_labelled_block(b, StateBlock::Solid, self.every_state()),
    {
        self.all_results(StateBlock::Solid)
    }

    /// All results of the shells.
    pub fn shell_results(&self) -> (r: Option<ResultBlock>)
        requires
            self.wf(),
        ensures
            r is Some <==> self.ctrl@.has_block(StateBlock::Shell),
            r matches Some(b) ==> self.is_labelled_block(b, StateBlock::Shell, self.every_state()),
    {
        self.all_results(StateBlock::Shell)
    }

    /// All results of the beams.
    pub fn beam_results(&self) -> (r: Option<ResultBlock>)
        requires
            self.wf(),
        ensures
            r is Some <==> self.ctrl@.has_block(StateBlock::Beam),
            r matches Some(b) ==> self.is_labelled_block(b, StateBlock::Beam, self.every_state()),
    {
        self.all_results(StateBlock::Beam)
    }

    /// All results of the thick shells.
    pub fn tshell_results(&self) -> (r: Option<ResultBlock>)
        requires
            self.wf(),
        ensures
            r is Some <==> self.ctrl@.has_block(StateBlock::ThickShell),
            r matches Some(b) ==> self.is_labelled_block(
                b,
                StateBlock::ThickShell,
                self.every_state(),
            ),
    {
        self.all_results(StateBlock::ThickShell)
    }

    /// The parts of the elements of a solid or shell block.
    pub open spec fn block_parts(self, block: StateBlock) -> Seq<i64> {
        match block {
            StateBlock::Solid => {
                let raw = self.raw_records(self.solids_off(), self.ctrl@.nel8, 8);
                record_parts(raw, 8, raw.len() / 9)
            },
            _ => {
                let raw = self.raw_records(self.shells_off(), self.ctrl@.nel4, 4);
                record_parts(raw, 4, raw.len() / 5)
            },
        }
    }

    fn read_parts(&self, block: StateBlock) -> (r: Vec<i64>)
        requires
            self.wf(),
            block is Solid || block is Shell,
        ensures
            r@ == self.block_parts(block),
    {
        match block {
            StateBlock::Solid => self.solid_connectivity().1,
            _ => self.shell_connectivity().1,
        }
    }

    /// `x` holds a block over all states, its shape and the parts of its elements.
    pub open spec fn is_element_block(
        self,
        block: StateBlock,
        x: (Vec<u64>, [usize; 3], Vec<i64>),
    ) -> bool {
        let p = self.ctrl@.block_place(block);
        &&& x.0@ == self.gather(self.every_state(), p.0, p.1 * p.2)
        &&& x.1@ == seq![self.states@.len() as usize, p.1 as usize, p.2 as usize]
        &&& x.2@ == self.block_parts(block)
    }

    /// A solid or shell block over all states as doubles, with its shape and the
    /// parts of its elements.
    pub fn element_block_f64(&self, block: StateBlock) -> (r: Option<
        (Vec<u64>, [usize; 3], Vec<i64>),
    >)
        requires
            self.wf(),
        ensures
            r is Some <==> self.ctrl@.has_block(block) && (block is Solid || block is Shell),
            r matches Some(x) ==> self.is_element_block(block, x),
    {
        let all: Vec<usize> = self.all_states();
        let (arr, dims): (BlockArray, [usize; 3]) = match self.block_data(block, all.as_slice()) {
            Some(x) => x,
            None => return None,
        };
        match block {
            StateBlock::Solid | StateBlock::Shell => Some(
                (arr.to_f64(), dims, self.read_parts(block)),
            ),
            _ => None,
        }
    }

    /// The positions of the elements of a part in a solid or shell block; `None`
    /// for other blocks.
    pub fn part_element_indices(&self, block: StateBlock, part: i64) -> (r: Option<Vec<usize>>)
        requires
            self.wf(),
        ensures
            r is Some <==> block is Solid || block is Shell,
            r matches Some(v) ==> v@ == positions_of(self.block_parts(block), part),
    {
        match block {
            StateBlock::Solid | StateBlock::Shell => {
                let parts: Vec<i64> = self.read_parts(block);
                Some(part_indices(parts.as_slice(), part))
            },
            _ => None,
        }
    }

    /// The record of element `e` of a block in state `s`; `None` when the file ends
    /// before it does.
    pub open spec fn element_record(self, block: StateBlock, s: int, e: nat) -> Option<Seq<u64>> {
        let p = self.ctrl@.block_place(block);
        let ws = self.ctrl@.wordsize;
        let at = self.states@[s].offset + p.0 * ws + e * p.2 * ws;
        if at + p.2 * ws <= self.file_of(s).len() {
            Some(floats_at(self.file_of(s), at, p.2, ws))
        } else {
            None
        }
    }

    fn read_element(&self, block: StateBlock, s: usize, e: usize) -> (r: Option<Vec<u64>>)
        requires
            self.wf(),
            self.ctrl@.has_block(block),
            s < self.states@.len(),
        ensures
            match self.element_record(block, s as int, e as nat) {
                None => r is None,
                Some(x) => r matches Some(v) && v@ == x,
            },
    {
        let (off, count, vars): (usize, usize, usize) = match self.ctrl.block_spec(block) {
            Some(x) => x,
            None => {
                assert(false);
                return None;
            },
        };
        let loc: StateLoc = self.states[s];
        let ws: usize = self.ctrl.wordsize as usize;
        proof {
            self.lemma_place(s as int);
            lemma_block_within(self.ctrl@, block);
            lemma_within(
                off as nat,
                (count * vars) as nat,
                self.ctrl@.state_words(),
                ws as nat,
            );
        }
        let len: usize = self.files[loc.file].len();
        assert(loc.offset + off * ws <= len);
        let base: usize = loc.offset as usize + off * ws;
        let ghost target = base + e as nat * vars as nat * ws as nat;
        assert(e * vars <= 0xFFFF_FFFF_FFFF_FFFF * 0xFFFF_FFFF_FFFF_FFFF) by (nonlinear_arith)
            requires
                e <= 0xFFFF_FFFF_FFFF_FFFF,
                vars <= 0xFFFF_FFFF_FFFF_FFFF,
        ;
        let words: u128 = e as u128 * vars as u128;
        if words > usize::MAX as u128 {
            assert(target + vars * ws > len) by {
                assert(words * ws >= words) by (nonlinear_arith)
                    requires
                        ws >= 1,
                        words >= 0,
                ;
                assert(vars * ws >= 0) by (nonlinear_arith);
            }
            return None;
        }
        match end_of(base, words as usize, ws, len) {
            None => {
                assert(vars * ws >= 0) by (nonlinear_arith);
                None
            },
            Some(at) => match read_floats_at(
                self.files[loc.file].as_slice(),
                at,
                vars,
                self.ctrl.wordsize,
            ) {
                Ok(v) => Some(v),
                Err(_) => None,
            },
        }
    }

    /// `r` is the record of one element in one state, if there is one.
    pub open spec fn is_element_result(
        self,
        block: StateBlock,
        state: usize,
        elem: usize,
        r: Option<Vec<u64>>,
    ) -> bool {
        let p = self.ctrl@.block_place(block);
        &&& r is Some <==> self.ctrl@.has_block(block) && state < self.states@.len() && elem < p.1
        &&& r matches Some(v) ==> v@ == self.state_floats(
            state as int,
            p.0 + elem as nat * p.2,
            p.2,
        )
    }

    /// The record of one element in one state; `None` when the block is absent or
    /// an index out of range.
    pub fn element_result(&self, block: StateBlock, state: usize, elem: usize) -> (r: Option<
        Vec<u64>,
    >)
        requires
            self.wf(),
        ensures
            self.is_element_result(block, state, elem, r),
    {
        let (off, count, vars): (usize, usize, usize) = match self.ctrl.block_spec(block) {
            Some(x) => x,
            None => return None,
        };
        if state >= self.states.len() || elem >= count {
            return None;
        }
        proof {
            lemma_block_within(self.ctrl@, block);
            lemma_state_terms(self.ctrl@);
            assert(elem * vars + vars <= count * vars) by (nonlinear_arith)
                requires
                    elem + 1 <= count,
            ;
            assert(0 <= elem * vars) by (nonlinear_arith);
        }
        Some(self.read_state(state, off + elem * vars, vars))
    }

    /// The records of the elements `idx` in state `s`.
    pub open spec fn records(self, block: StateBlock, s: int, idx: Seq<usize>) -> Seq<
        Option<Seq<u64>>,
    > {
        Seq::new(idx.len(), |i: int| self.element_record(block, s, idx[i] as nat))
    }

    /// `f` can be asked about any record of the block.
    pub open spec fn answers<F: Fn(&[u64]) -> u64>(self, f: F, block: StateBlock) -> bool {
        forall|x: &[u64]|
            x@.len() == self.ctrl@.block_place(block).2 ==> #[trigger] call_requires(f, (x,))
    }

    /// `m` is the largest value of the quantity over the elements of a part in
    /// state `s`; 0 for a part without elements.
    pub open spec fn is_part_max<F: Fn(&[u64]) -> u64>(
        self,
        f: F,
        block: StateBlock,
        idx: Seq<usize>,
        s: int,
        m: u64,
    ) -> bool {
        exists|q: Seq<Option<u64>>|
            #[trigger] quantities(f, self.records(block, s, idx), q) && m == largest_or_zero(q)
    }

    /// `n` elements of a part have a quantity above `t` in state `s`.
    pub open spec fn is_part_count<F: Fn(&[u64]) -> u64>(
        self,
        f: F,
        block: StateBlock,
        idx: Seq<usize>,
        s: int,
        t: u64,
        n: usize,
    ) -> bool {
        exists|q: Seq<Option<u64>>|
            #[trigger] quantities(f, self.records(block, s, idx), q) && n == count_above(t, q)
    }

    /// `best` is the element of a part with the largest quantity in state `s`, and
    /// that value.
    pub open spec fn is_part_argmax<F: Fn(&[u64]) -> u64>(
        self,
        f: F,
        block: StateBlock,
        idx: Seq<usize>,
        s: int,
        best: (usize, u64),
    ) -> bool {
        exists|q: Seq<Option<u64>>|
            #[trigger] quantities(f, self.records(block, s, idx), q) && best == (
                idx[arg_fold(q).0],
                arg_fold(q).1,
            )
    }

    /// `data` holds the values of the quantity, states by elements.
    pub open spec fn is_part_table<F: Fn(&[u64]) -> u64>(
        self,
        f: F,
        block: StateBlock,
        idx: Seq<usize>,
        data: Seq<u64>,
    ) -> bool {
        exists|rows: Seq<Seq<Option<u64>>>|
            {
                &&& rows.len() == self.states@.len()
                &&& forall|s: int|
                    0 <= s < rows.len() ==> quantities(
                        f,
                        self.records(block, s, idx),
                        #[trigger] rows[s],
                    )
                &&& data == #[trigger] flattened(rows)
            }
    }

    fn ask<F: Fn(&[u64]) -> u64>(&self, block: StateBlock, s: usize, idx: &Vec<usize>, f: &F) -> (r:
        Vec<Option<u64>>)
        requires
            self.wf(),
            self.ctrl@.has_block(block),
            s < self.states@.len(),
            self.answers(*f, block),
        ensures
            quantities(*f, self.records(block, s as int, idx@), r@),
    {
        let mut out: Vec<Option<u64>> = Vec::new();
        let ghost recs = self.records(block, s as int, idx@);
        for i in 0..idx.len()
            invariant
                self.wf(),
                self.ctrl@.has_block(block),
                s < self.states@.len(),
                self.answers(*f, block),
                recs == self.records(block, s as int, idx@),
                out@.len() == i,
                forall|k: int|
                    0 <= k < i ==> match (#[trigger] recs[k]) {
                        None => out@[k] is None,
                        Some(r) => out@[k] matches Some(v) && gives(*f, r, v),
                    },
        {
            assert(recs[i as int] == self.element_record(block, s as int, idx@[i as int] as nat));
            match self.read_element(block, s, idx[i]) {
                Some(rec) => {
                    let x: &[u64] = rec.as_slice();
                    let q: u64 = f(x);
                    assert(gives(*f, rec@, q));
                    out.push(Some(q));
                },
                None => {
                    out.push(None);
                },
            }
        }
        out
    }

    /// For each state, the largest value of a quantity over the elements of a part; 0
    /// for a part without elements. `None` when the block is absent or neither solid nor shell.
    pub fn part_max_history<F: Fn(&[u64]) -> u64>(
        &self,
        block: StateBlock,
        part: i64,
        quantity: F,
    ) -> (r: Option<Vec<u64>>)
        requires
            self.wf(),
            self.answers(quantity, block),
        ensures
            r is Some <==> self.ctrl@.has_block(block) && (block is Solid || block is Shell),
            r matches Some(v) ==> v@.len() == self.states@.len() && forall|s: int|
                0 <= s < v@.len() ==> self.is_part_max(
                    quantity,
                    block,
                    positions_of(self.block_parts(block), part),
                    s,
                    #[trigger] v@[s],
                ),
    {
        if self.ctrl.block_spec(block).is_none() {
            return None;
        }
        let idx: Vec<usize> = match self.part_element_indices(block, part) {
            Some(x) => x,
            None => return None,
        };
        let mut out: Vec<u64> = Vec::new();
        for s in 0..self.states.len()
            invariant
                self.wf(),
                self.ctrl@.has_block(block),
                self.answers(quantity, block),
                idx@ == positions_of(self.block_parts(block), part),
                out@.len() == s,
                forall|k: int|
                    0 <= k < s ==> self.is_part_max(quantity, block, idx@, k, #[trigger] out@[k]),
        {
            let q: Vec<Option<u64>> = self.ask(block, s, &idx, &quantity);
            let m: u64 = max_value(&q);
            out.push(m);
            assert(self.is_part_max(quantity, block, idx@, s as int, m));
        }
        Some(out)
    }

    /// For each state, how many elements of a part have a quantity above the
    /// threshold; and how many elements the part has. `None` when the block is
    /// absent or neither solid nor shell.
    pub fn part_failure_counts<F: Fn(&[u64]) -> u64>(
        &self,
        block: StateBlock,
        part: i64,
        threshold: u64,
        quantity: F,
    ) -> (r: Option<(Vec<usize>, usize)>)
        requires
            self.wf(),
            self.answers(quantity, block),
        ensures
            r is Some <==> self.ctrl@.has_block(block) && (block is Solid || block is Shell),
            r matches Some(x) ==> x.1 == positions_of(self.block_parts(block), part).len()
                && x.0@.len() == self.states@.len() && forall|s: int|
                0 <= s < x.0@.len() ==> self.is_part_count(
                    quantity,
                    block,
                    positions_of(self.block_parts(block), part),
                    s,
                    threshold,
                    #[trigger] x.0@[s],
                ),
    {
        if self.ctrl.block_spec(block).is_none() {
            return None;
        }
        let idx: Vec<usize> = match self.part_element_indices(block, part) {
            Some(x) => x,
            None => return None,
        };
        let mut out: Vec<usize> = Vec::new();
        for s in 0..self.states.len()
            invariant
                self.wf(),
                self.ctrl@.has_block(block),
                self.answers(quantity, block),
                idx@ == positions_of(self.block_parts(block), part),
                out@.len() == s,
                forall|k: int|
                    0 <= k < s ==> self.is_part_count(
                        quantity,
                        block,
                        idx@,
                        k,
                        threshold,
                        #[trigger] out@[k],
                    ),
        {
            let q: Vec<Option<u64>> = self.ask(block, s, &idx, &quantity);
            let m: usize = count_over(&q, threshold);
            out.push(m);
            assert(self.is_part_count(quantity, block, idx@, s as int, threshold, m));
        }
        Some((out, idx.len()))
    }

    /// For each state, the element of a part with the largest value of a quantity,
    /// and that value. `None` when the block is absent, neither solid nor shell, or
    /// has no element of the part.
    pub fn part_argmax_history<F: Fn(&[u64]) -> u64>(
        &self,
        block: StateBlock,
        part: i64,
        quantity: F,
    ) -> (r: Option<Vec<(usize, u64)>>)
        requires
            self.wf(),
            self.answers(quantity, block),
        ensures
            r is Some <==> self.ctrl@.has_block(block) && (block is Solid || block is Shell)
                && positions_of(self.block_parts(block), part).len() > 0,
            r matches Some(v) ==> v@.len() == self.states@.len() && forall|s: int|
                0 <= s < v@.len() ==> self.is_part_argmax(
                    quantity,
                    block,
                    positions_of(self.block_parts(block), part),
                    s,
                    #[trigger] v@[s],
                ),
    {
        if self.ctrl.block_spec(block).is_none() {
            return None;
        }
        let idx: Vec<usize> = match self.part_element_indices(block, part) {
            Some(x) => x,
            None => return None,
        };
        if idx.len() == 0 {
            return None;
        }
        let mut out: Vec<(usize, u64)> = Vec::new();
        for s in 0..self.states.len()
            invariant
                self.wf(),
                self.ctrl@.has_block(block),
                self.answers(quantity, block),
                idx@ == positions_of(self.block_parts(block), part),
                idx@.len() > 0,
                out@.len() == s,
                forall|k: int|
                    0 <= k < s ==> self.is_part_argmax(
                        quantity,
                        block,
                        idx@,
                        k,
                        #[trigger] out@[k],
                    ),
        {
            let q: Vec<Option<u64>> = self.ask(block, s, &idx, &quantity);
            let (at, m): (usize, u64) = arg_value(&q);
            out.push((idx[at], m));
            assert(self.is_part_argmax(quantity, block, idx@, s as int, (idx@[at as int], m)));
        }
        Some(out)
    }

    /// The values of a quantity, states by elements of the part (0 where the record
    /// is not there), with the shape and the positions of the elements. `None` when
    /// the block is absent or neither solid nor shell.
    pub fn part_element_history<F: Fn(&[u64]) -> u64>(
        &self,
        block: StateBlock,
        part: i64,
        quantity: F,
    ) -> (r: Option<(Vec<u64>, [usize; 2], Vec<usize>)>)
        requires
            self.wf(),
            self.answers(quantity, block),
        ensures
            r is Some <==> self.ctrl@.has_block(block) && (block is Solid || block is Shell),
            r matches Some(x) ==> {
                let idx = positions_of(self.block_parts(block), part);
                &&& x.2@ == idx
                &&& x.1@ == seq![self.states@.len() as usize, idx.len() as usize]
                &&& self.is_part_table(quantity, block, idx, x.0@)
            },
    {
        if self.ctrl.block_spec(block).is_none() {
            return None;
        }
        let idx: Vec<usize> = match self.part_element_indices(block, part) {
            Some(x) => x,
            None => return None,
        };
        let mut out: Vec<u64> = Vec::new();
        let ghost mut rows: Seq<Seq<Option<u64>>> = Seq::empty();
        assert(out@ =~= flattened(rows));
        for s in 0..self.states.len()
            invariant
                self.wf(),
                self.ctrl@.has_block(block),
                self.answers(quantity, block),
                idx@ == positions_of(self.block_parts(block), part),
                rows.len() == s,
                forall|k: int|
                    0 <= k < s ==> quantities(
                        quantity,
                        self.records(block, k, idx@),
                        #[trigger] rows[k],
                    ),
                out@ == flattened(rows),
        {
            let q: Vec<Option<u64>> = self.ask(block, s, &idx, &quantity);
            push_values(&mut out, &q);
            proof {
                let next = rows.push(q@);
                assert(next.drop_last() =~= rows);
                rows = next;
            }
        }
        assert(self.is_part_table(quantity, block, idx@, out@));
        let dims: [usize; 2] = [self.states.len(), idx.len()];
        assert(dims@ =~= seq![self.states@.len() as usize, idx@.len() as usize]);
        Some((out, dims, idx))
    }
}

/// The values, with 0 in place of missing ones.
pub open spec fn filled(q: Seq<Option<u64>>) -> Seq<u64> {
    Seq::new(
        q.len(),
        |i: int|
            match q[i] {
                Some(v) => v,
                None => 0,
            },
    )
}

/// The rows one after the other, with 0 in place of missing values.
pub open spec fn flattened(rows: Seq<Seq<Option<u64>>>) -> Seq<u64>
    decreases rows.len(),
{
    if rows.len() == 0 {
        Seq::empty()
    } else {
        flattened(rows.drop_last()) + filled(rows.last())
    }
}

fn push_values(out: &mut Vec<u64>, q: &Vec<Option<u64>>)
    ensures
        final(out)@ == old(out)@ + filled(q@),
{
    let ghost start = out@;
    for i in 0..q.len()
        invariant
            out@ == start + filled(q@).take(i as int),
    {
        let v: u64 = match q[i] {
            Some(x) => x,
            None => 0,
        };
        out.push(v);
        assert(out@ =~= start + filled(q@).take(i + 1));
    }
    assert(filled(q@).take(q@.len() as int) =~= filled(q@));
}

pub(crate) fn max_value(q: &Vec<Option<u64>>) -> (r: u64)
    ensures
        r == largest_or_zero(q@),
{
    let mut best: Option<u64> = None;
    for i in 0..q.len()
        invariant
            best == largest(q@.take(i as int)),
    {
        proof {
            assert(q@.take(i + 1).drop_last() =~= q@.take(i as int));
        }
        if let Some(v) = q[i] {
            best = match best {
                None => Some(v),
                Some(m) => if nan(m) || less(m, v) {
                    Some(v)
                } else {
                    Some(m)
                },
            };
        }
    }
    assert(q@.take(q@.len() as int) =~= q@);
    match best {
        Some(m) => m,
        None => 0,
    }
}

pub(crate) fn count_over(q: &Vec<Option<u64>>, t: u64) -> (r: usize)
    ensures
        r == count_above(t, q@),
{
    let mut m: usize = 0;
    for i in 0..q.len()
        invariant
            m == count_above(t, q@.take(i as int)),
            m <= i,
    {
        proof {
            assert(q@.take(i + 1).drop_last() =~= q@.take(i as int));
        }
        if let Some(v) = q[i] {
            if less(t, v) {
                m = m + 1;
            }
        }
    }
    assert(q@.take(q@.len() as int) =~= q@);
    m
}

fn arg_value(q: &Vec<Option<u64>>) -> (r: (usize, u64))
    ensures
        (r.0 as int, r.1) == arg_fold(q@),
        q@.len() > 0 ==> r.0 < q@.len(),
{
    let mut at: usize = 0;
    let mut m: u64 = NEG_INFINITY;
    for i in 0..q.len()
        invariant
            (at as int, m) == arg_fold(q@.take(i as int)),
            at <= i,
            i > 0 ==> at < i,
    {
        proof {
            assert(q@.take(i + 1).drop_last() =~= q@.take(i as int));
        }
        if let Some(v) = q[i] {
            if less(m, v) {
                m = v;
                at = i;
            }
        }
    }
    assert(q@.take(q@.len() as int) =~= q@);
    (at, m)
}

} // verus!
