//! Records of elements: what stands where in them, and reductions over the elements of
//! a part. Numbers are patterns of doubles.

use crate::d3plot::extract::{
    count_above, count_over, largest_or_zero, max_value, part_indices, positions_of, quantities,
};
use crate::d3plot::control::IOSHL_PRESENT;
use crate::d3plot::reader::D3plot;
use vstd::prelude::*;
use vstd::slice::slice_subrange;

verus! {

/// The effective plastic strain of an element: the word behind its six stresses, or 0
/// in a shorter record.
pub fn effective_plastic_strain(elem: &[u64]) -> (r: u64)
    ensures
        r == if elem@.len() > 6 {
            elem@[6]
        } else {
            0
        },
{
    if elem.len() > 6 {
        elem[6]
    } else {
        0
    }
}

/// The six stresses that lead a record, or `None` in a shorter one.
pub fn leading_stress(elem: &[u64]) -> (r: Option<[u64; 6]>)
    ensures
        r is Some <==> elem@.len() >= 6,
        r matches Some(s) ==> s@ == elem@.take(6),
{
    if elem.len() < 6 {
        None
    } else {
        let s: [u64; 6] = [elem[0], elem[1], elem[2], elem[3], elem[4], elem[5]];
        assert(s@ =~= elem@.take(6));
        Some(s)
    }
}

/// Forces and moments of a beam's cross-section.
#[derive(Debug, Clone, Copy, PartialEq, Eq)]
pub struct BeamResultants {
    pub axial_force: u64,
    pub shear_force: [u64; 2],
    pub bending_moment: [u64; 2],
    pub torsion_moment: u64,
}

/// `r` holds the forces and moments that lead a beam's record, if they are there.
pub open spec fn are_beam_resultants(elem: Seq<u64>, r: Option<BeamResultants>) -> bool {
    &&& r is Some <==> elem.len() >= 6
    &&& r matches Some(b) ==> b.axial_force == elem[0] && b.shear_force@ == seq![
        elem[1],
        elem[2],
    ] && b.bending_moment@ == seq![elem[3], elem[4]] && b.torsion_moment == elem[5]
}

/// The forces and moments that lead a beam's record, or `None` in a shorter one.
pub fn beam_resultants(elem: &[u64]) -> (r: Option<BeamResultants>)
    ensures
        are_beam_resultants(elem@, r),
{
    if elem.len() < 6 {
        return None;
    }
    let shear_force: [u64; 2] = [elem[1], elem[2]];
    let bending_moment: [u64; 2] = [elem[3], elem[4]];
    assert(shear_force@ =~= seq![elem@[1], elem@[2]]);
    assert(bending_moment@ =~= seq![elem@[3], elem@[4]]);
    Some(
        BeamResultants {
            axial_force: elem[0],
            shear_force,
            bending_moment,
            torsion_moment: elem[5],
        },
    )
}

/// The axial force of a beam: the first word of its record, or 0 in an empty one.
pub fn beam_axial_force(elem: &[u64]) -> (r: u64)
    ensures
        r == if elem@.len() > 0 {
            elem@[0]
        } else {
            0
        },
{
    if elem.len() > 0 {
        elem[0]
    } else {
        0
    }
}

/// Which layer of a shell is meant.
#[derive(Debug, Clone, Copy, PartialEq, Eq, Structural)]
pub enum LayerSelect {
    /// The last one.
    Top,
    /// The first one.
    Bottom,
    /// The one in the middle.
    Mid,
    /// One by its number from 0, but no later than the last.
    Index(usize),
    /// The one with the largest quantity.
    Max,
}

/// What stands where in a shell's record: layers, then what belongs to the element.
#[derive(Debug, Clone, Copy)]
pub struct ShellLayout {
    pub n_layers: usize,
    /// Words per layer.
    pub stride: usize,
    /// Six stresses lead each layer.
    pub has_stress: bool,
    /// The effective plastic strain follows in each layer.
    pub has_pstrain: bool,
    /// Eight forces and moments follow the layers.
    pub has_forces: bool,
    /// The thickness and two energies follow these.
    pub has_extra: bool,
}

/// Forces and moments of a shell per unit of width, and its thickness.
#[derive(Debug, Clone, Copy, PartialEq, Eq)]
pub struct ShellResultants {
    pub bending_moment: [u64; 3],
    pub shear_force: [u64; 2],
    pub normal_force: [u64; 3],
    pub thickness: Option<u64>,
}

/// `a * b + c` where that is a place in memory.
fn place(a: usize, b: usize, c: usize) -> (r: Option<usize>)
    ensures
        match r {
            Some(v) => v == a * b + c,
            None => a * b + c > usize::MAX,
        },
{
    match a.checked_mul(b) {
        Some(m) => m.checked_add(c),
        None => {
            proof {
                assert(a * b + c > usize::MAX) by (nonlinear_arith)
                    requires
                        a * b > usize::MAX,
                        c >= 0,
                ;
            }
            None
        },
    }
}

/// Word `i` of a record, if it is there.
pub open spec fn word_at(rec: Seq<u64>, i: int) -> Option<u64> {
    if 0 <= i < rec.len() {
        Some(rec[i])
    } else {
        None
    }
}

fn get_word(rec: &[u64], i: Option<usize>) -> (r: Option<u64>)
    ensures
        match i {
            Some(v) => r == word_at(rec@, v as int),
            None => r is None,
        },
{
    match i {
        Some(v) => if v < rec.len() {
            Some(rec[v])
        } else {
            None
        },
        None => None,
    }
}

impl ShellLayout {
    /// Where a layer begins.
    pub open spec fn layer_off(self, layer: nat) -> nat {
        layer * (self.stride as nat)
    }

    /// The layer that a selector means; `None` for all of them, and where there is
    /// none.
    pub open spec fn chosen(self, sel: LayerSelect) -> Option<usize> {
        if self.n_layers == 0 {
            None
        } else {
            match sel {
                LayerSelect::Bottom => Some(0),
                LayerSelect::Top => Some((self.n_layers - 1) as usize),
                LayerSelect::Mid => Some(self.n_layers / 2),
                LayerSelect::Index(k) => Some(
                    if k < self.n_layers {
                        k
                    } else {
                        (self.n_layers - 1) as usize
                    },
                ),
                LayerSelect::Max => None,
            }
        }
    }

    /// The stresses of a layer.
    pub open spec fn stress_at(self, rec: Seq<u64>, layer: nat) -> Option<Seq<u64>> {
        let off = self.layer_off(layer) as int;
        if self.has_stress && layer < self.n_layers && off + 6 <= rec.len() {
            Some(rec.subrange(off, off + 6))
        } else {
            None
        }
    }

    /// The effective plastic strain of a layer.
    pub open spec fn pstrain_at(self, rec: Seq<u64>, layer: nat) -> Option<u64> {
        if self.has_pstrain && layer < self.n_layers {
            word_at(
                rec,
                self.layer_off(layer) + if self.has_stress {
                    6int
                } else {
                    0
                },
            )
        } else {
            None
        }
    }

    fn resolve(&self, sel: LayerSelect) -> (r: Option<usize>)
        ensures
            r == self.chosen(sel),
    {
        if self.n_layers == 0 {
            return None;
        }
        match sel {
            LayerSelect::Bottom => Some(0),
            LayerSelect::Top => Some(self.n_layers - 1),
            LayerSelect::Mid => Some(self.n_layers / 2),
            LayerSelect::Index(k) => Some(
                if k < self.n_layers {
                    k
                } else {
                    self.n_layers - 1
                },
            ),
            LayerSelect::Max => None,
        }
    }

    /// The six stresses of a layer, or `None` where the layout has none or the record
    /// is too short.
    pub fn layer_stress(&self, rec: &[u64], layer: usize) -> (r: Option<[u64; 6]>)
        ensures
            match r {
                Some(s) => self.stress_at(rec@, layer as nat) == Some(s@),
                None => self.stress_at(rec@, layer as nat) is None,
            },
    {
        if !self.has_stress || layer >= self.n_layers {
            return None;
        }
        let n: usize = rec.len();
        match place(layer, self.stride, 6) {
            Some(end) => if end <= n {
                assert(end - 6 == self.layer_off(layer as nat));
                let s: &[u64] = slice_subrange(rec, end - 6, end);
                let a: [u64; 6] = [s[0], s[1], s[2], s[3], s[4], s[5]];
                assert(a@ =~= rec@.subrange(end - 6, end as int));
                Some(a)
            } else {
                None
            },
            None => None,
        }
    }

    /// The effective plastic strain of a layer, or `None` where the layout has none or
    /// the record is too short.
    pub fn layer_pstrain(&self, rec: &[u64], layer: usize) -> (r: Option<u64>)
        ensures
            r == self.pstrain_at(rec@, layer as nat),
    {
        if !self.has_pstrain || layer >= self.n_layers {
            return None;
        }
        let n: usize = rec.len();
        get_word(
            rec,
            place(
                layer,
                self.stride,
                if self.has_stress {
                    6
                } else {
                    0
                },
            ),
        )
    }

    /// `r` holds the forces and moments behind the layers, if they are there.
    pub open spec fn are_resultants(self, rec: Seq<u64>, r: Option<ShellResultants>) -> bool {
        let b = self.layer_off(self.n_layers as nat) as int;
        &&& r is Some <==> self.has_forces && b + 8 <= rec.len()
        &&& r matches Some(x) ==> {
            &&& x.bending_moment@ == rec.subrange(b, b + 3)
            &&& x.shear_force@ == rec.subrange(b + 3, b + 5)
            &&& x.normal_force@ == rec.subrange(b + 5, b + 8)
            &&& x.thickness == if self.has_extra {
                word_at(rec, b + 8)
            } else {
                None
            }
        }
    }

    /// The forces and moments behind the layers, or `None` where the layout has none or
    /// the record is too short.
    pub fn resultants(&self, rec: &[u64]) -> (r: Option<ShellResultants>)
        ensures
            self.are_resultants(rec@, r),
    {
        if !self.has_forces {
            return None;
        }
        let n: usize = rec.len();
        let end: usize = match place(self.n_layers, self.stride, 8) {
            Some(end) => end,
            None => {
                return None;
            },
        };
        if end > rec.len() {
            return None;
        }
        let f: &[u64] = slice_subrange(rec, end - 8, end);
        let bending_moment: [u64; 3] = [f[0], f[1], f[2]];
        let shear_force: [u64; 2] = [f[3], f[4]];
        let normal_force: [u64; 3] = [f[5], f[6], f[7]];
        assert(bending_moment@ =~= rec@.subrange(end - 8, end - 5));
        assert(shear_force@ =~= rec@.subrange(end - 5, end - 3));
        assert(normal_force@ =~= rec@.subrange(end - 3, end as int));
        let thickness: Option<u64> = if self.has_extra {
            get_word(rec, Some(end))
        } else {
            None
        };
        Some(ShellResultants { bending_moment, shear_force, normal_force, thickness })
    }
}

/// The stresses of the first `n` layers that are there.
pub open spec fn stresses_upto(rec: Seq<u64>, layout: ShellLayout, n: nat) -> Seq<Seq<u64>>
    decreases n,
{
    if n == 0 {
        Seq::empty()
    } else {
        let rest = stresses_upto(rec, layout, (n - 1) as nat);
        match layout.stress_at(rec, (n - 1) as nat) {
            Some(s) => rest.push(s),
            None => rest,
        }
    }
}

/// The stresses that a selector means: those of one layer, or of all.
pub open spec fn stresses_of(rec: Seq<u64>, layout: ShellLayout, sel: LayerSelect) -> Seq<
    Seq<u64>,
> {
    match layout.chosen(sel) {
        Some(l) => match layout.stress_at(rec, l as nat) {
            Some(s) => seq![s],
            None => Seq::empty(),
        },
        None => stresses_upto(rec, layout, layout.n_layers as nat),
    }
}

pub open spec fn tensors(s: Seq<[u64; 6]>) -> Seq<Seq<u64>> {
    Seq::new(s.len(), |i: int| s[i]@)
}

/// The stresses of a shell that a selector means: those of one layer, or of all, from
/// which the largest equivalent stress is to be taken.
pub fn shell_stresses(rec: &[u64], layout: &ShellLayout, sel: LayerSelect) -> (r: Vec<[u64; 6]>)
    ensures
        tensors(r@) == stresses_of(rec@, *layout, sel),
{
    let mut out: Vec<[u64; 6]> = Vec::new();
    assert(tensors(out@) =~= Seq::<Seq<u64>>::empty());
    match layout.resolve(sel) {
        Some(l) => {
            match layout.layer_stress(rec, l) {
                Some(s) => {
                    out.push(s);
                    assert(tensors(out@) =~= seq![s@]);
                },
                None => {},
            }
        },
        None => {
            for l in 0..layout.n_layers
                invariant
                    tensors(out@) == stresses_upto(rec@, *layout, l as nat),
            {
                let ghost before = tensors(out@);
                match layout.layer_stress(rec, l) {
                    Some(s) => {
                        out.push(s);
                        assert(tensors(out@) =~= before.push(s@));
                    },
                    None => {},
                }
            }
        },
    }
    out
}

/// The effective plastic strains of the first `n` layers.
pub open spec fn pstrains_upto(rec: Seq<u64>, layout: ShellLayout, n: nat) -> Seq<Option<u64>> {
    Seq::new(n, |l: int| layout.pstrain_at(rec, l as nat))
}

/// The effective plastic strain of a shell that a selector means.
pub open spec fn pstrain_of(rec: Seq<u64>, layout: ShellLayout, sel: LayerSelect) -> u64 {
    match layout.chosen(sel) {
        Some(l) => match layout.pstrain_at(rec, l as nat) {
            Some(v) => v,
            None => 0,
        },
        None => largest_or_zero(pstrains_upto(rec, layout, layout.n_layers as nat)),
    }
}

/// The effective plastic strain of a shell at the layer that a selector means, or the
/// largest one over all layers; 0 where there is none.
pub fn shell_plastic_strain(rec: &[u64], layout: &ShellLayout, sel: LayerSelect) -> (r: u64)
    ensures
        r == pstrain_of(rec@, *layout, sel),
{
    match layout.resolve(sel) {
        Some(l) => match layout.layer_pstrain(rec, l) {
            Some(v) => v,
            None => 0,
        },
        None => {
            let mut q: Vec<Option<u64>> = Vec::new();
            for l in 0..layout.n_layers
                invariant
                    q@ == pstrains_upto(rec@, *layout, l as nat),
            {
                q.push(layout.layer_pstrain(rec, l));
                assert(q@ =~= pstrains_upto(rec@, *layout, (l + 1) as nat));
            }
            max_value(&q)
        },
    }
}

/// The part ids of the first `n` elements, as far as there are any.
pub open spec fn ids_of(part_ids: Seq<i64>, n: nat) -> Seq<i64> {
    if part_ids.len() <= n {
        part_ids
    } else {
        part_ids.take(n as int)
    }
}

fn block_indices(n_elem: usize, part_ids: &[i64], part: i64) -> (r: Vec<usize>)
    ensures
        r@ == positions_of(ids_of(part_ids@, n_elem as nat), part),
{
    let n: usize = if part_ids.len() <= n_elem { part_ids.len() } else { n_elem };
    let ids: &[i64] = slice_subrange(part_ids, 0, n);
    assert(ids@ =~= ids_of(part_ids@, n_elem as nat));
    part_indices(ids, part)
}

/// The words of element `e` at state `s` of a block of states by elements by words.
pub open spec fn record_in(data: Seq<u64>, n_elem: nat, nv: nat, s: int, e: int) -> Seq<u64> {
    data.subrange((s * n_elem + e) * nv, (s * n_elem + e) * nv + nv)
}

/// The records of some elements at state `s`.
pub open spec fn records_in(
    data: Seq<u64>,
    n_elem: nat,
    nv: nat,
    s: int,
    idx: Seq<usize>,
) -> Seq<Option<Seq<u64>>> {
    Seq::new(idx.len(), |i: int| Some(record_in(data, n_elem, nv, s, idx[i] as int)))
}

/// `f` can be asked about records of `nv` words.
pub open spec fn takes_records<F: Fn(&[u64]) -> u64>(f: F, nv: nat) -> bool {
    forall|x: &[u64]| x@.len() == nv ==> #[trigger] call_requires(f, (x,))
}

/// Where the record of element `e` at state `s` ends.
pub open spec fn record_end(n_elem: nat, nv: nat, s: int, e: int) -> int {
    (s * n_elem + e) * nv + nv
}

/// `len` words hold the records of the elements `idx` at every state.
pub open spec fn holds_records(
    len: nat,
    n_states: nat,
    n_elem: nat,
    nv: nat,
    idx: Seq<usize>,
) -> bool {
    forall|s: int, i: int|
        0 <= s < n_states && 0 <= i < idx.len() ==> #[trigger] record_end(
            n_elem,
            nv,
            s,
            idx[i] as int,
        ) <= len
}

/// A block of that many states, elements and words holds the records of every part.
pub proof fn law_whole_block_holds_parts(
    len: nat,
    n_states: nat,
    n_elem: nat,
    nv: nat,
    part_ids: Seq<i64>,
    part: i64,
)
    requires
        n_states * n_elem * nv <= len,
        n_elem <= usize::MAX,
    ensures
        holds_records(len, n_states, n_elem, nv, positions_of(ids_of(part_ids, n_elem), part)),
{
    let ids = ids_of(part_ids, n_elem);
    let idx = positions_of(ids, part);
    crate::d3plot::extract::law_positions_of(ids, part);
    assert forall|s: int, i: int| 0 <= s < n_states && 0 <= i < idx.len() implies #[trigger]
        record_end(n_elem, nv, s, idx[i] as int) <= len by {
        let e = idx[i] as int;
        assert(e < ids.len());
        assert((s * n_elem + e) * nv + nv == (s * n_elem + e + 1) * nv) by (nonlinear_arith);
        assert(s * n_elem + e + 1 <= n_states * n_elem) by (nonlinear_arith)
            requires
                0 <= s < n_states,
                0 <= e < n_elem,
        ;
        assert((s * n_elem + e + 1) * nv <= (n_states * n_elem) * nv) by (nonlinear_arith)
            requires
                s * n_elem + e + 1 <= n_states * n_elem,
        ;
    }
}

fn ask<F: Fn(&[u64]) -> u64>(
    data: &[u64],
    n_states: usize,
    n_elem: usize,
    nv: usize,
    s: usize,
    idx: &Vec<usize>,
    f: &F,
) -> (r: Vec<Option<u64>>)
    requires
        holds_records(data@.len(), n_states as nat, n_elem as nat, nv as nat, idx@),
        s < n_states,
        takes_records(*f, nv as nat),
    ensures
        quantities(*f, records_in(data@, n_elem as nat, nv as nat, s as int, idx@), r@),
        forall|i: int| 0 <= i < r@.len() ==> (#[trigger] r@[i]) is Some,
{
    let mut out: Vec<Option<u64>> = Vec::new();
    let ghost recs = records_in(data@, n_elem as nat, nv as nat, s as int, idx@);
    if nv == 0 {
        let x: &[u64] = slice_subrange(data, 0, 0);
        assert(x@ =~= Seq::<u64>::empty());
        for i in 0..idx.len()
            invariant
                nv == 0,
                x@ == Seq::<u64>::empty(),
                recs == records_in(data@, n_elem as nat, nv as nat, s as int, idx@),
                takes_records(*f, nv as nat),
                out@.len() == i,
                forall|k: int|
                    0 <= k < i ==> ((#[trigger] out@[k]) matches Some(v)
                        && crate::d3plot::extract::gives(*f, recs[k]->0, v)),
        {
            let q: u64 = f(x);
            proof {
                let e = idx@[i as int] as int;
                assert((s * n_elem + e) * 0 == 0) by (nonlinear_arith);
                assert(recs[i as int]->0 =~= x@);
                assert(crate::d3plot::extract::gives(*f, x@, q));
            }
            out.push(Some(q));
        }
        return out;
    }
    for i in 0..idx.len()
        invariant
            nv > 0,
            holds_records(data@.len(), n_states as nat, n_elem as nat, nv as nat, idx@),
            s < n_states,
            recs == records_in(data@, n_elem as nat, nv as nat, s as int, idx@),
            takes_records(*f, nv as nat),
            out@.len() == i,
            forall|k: int|
                0 <= k < i ==> ((#[trigger] out@[k]) matches Some(v)
                        && crate::d3plot::extract::gives(*f, recs[k]->0, v)),
    {
        let e: usize = idx[i];
        let m: usize = data.len();
        proof {
            assert(record_end(n_elem as nat, nv as nat, s as int, idx@[i as int] as int) <= m);
            assert(0 <= s * n_elem + e) by (nonlinear_arith);
            assert(0 <= (s * n_elem + e) * nv) by (nonlinear_arith)
                requires
                    0 <= s * n_elem + e,
            ;
            assert(s * n_elem + e <= m) by (nonlinear_arith)
                requires
                    (s * n_elem + e) * nv + nv <= m,
                    nv >= 1,
                    0 <= s * n_elem + e,
            ;
            assert(0 <= s * n_elem) by (nonlinear_arith);
        }
        let base: usize = (s * n_elem + e) * nv;
        let x: &[u64] = slice_subrange(data, base, base + nv);
        let q: u64 = f(x);
        assert(recs[i as int]->0 =~= x@);
        assert(crate::d3plot::extract::gives(*f, x@, q));
        out.push(Some(q));
    }
    out
}

/// For each state, the largest value of a quantity over the elements of a part, in a
/// block of states by elements by words; 0 for a part without elements.
pub fn part_max_history<F: Fn(&[u64]) -> u64>(
    data: &[u64],
    n_states: usize,
    n_elem: usize,
    nv: usize,
    part_ids: &[i64],
    part: i64,
    quantity: F,
) -> (r: Vec<u64>)
    requires
        holds_records(
            data@.len(),
            n_states as nat,
            n_elem as nat,
            nv as nat,
            positions_of(ids_of(part_ids@, n_elem as nat), part),
        ),
        takes_records(quantity, nv as nat),
    ensures
        r@.len() == n_states,
        forall|s: int|
            0 <= s < n_states ==> is_block_max(
                quantity,
                data@,
                n_elem as nat,
                nv as nat,
                positions_of(ids_of(part_ids@, n_elem as nat), part),
                s,
                #[trigger] r@[s],
            ),
{
    let idx: Vec<usize> = block_indices(n_elem, part_ids, part);
    let mut out: Vec<u64> = Vec::new();
    for s in 0..n_states
        invariant
            holds_records(data@.len(), n_states as nat, n_elem as nat, nv as nat, idx@),
            takes_records(quantity, nv as nat),
            out@.len() == s,
            forall|k: int|
                0 <= k < s ==> is_block_max(
                    quantity,
                    data@,
                    n_elem as nat,
                    nv as nat,
                    idx@,
                    k,
                    #[trigger] out@[k],
                ),
    {
        let q: Vec<Option<u64>> = ask(data, n_states, n_elem, nv, s, &idx, &quantity);
        let m: u64 = max_value(&q);
        out.push(m);
        assert(is_block_max(quantity, data@, n_elem as nat, nv as nat, idx@, s as int, m));
    }
    out
}

/// `m` is the largest value of the quantity over the elements at state `s`; 0 where
/// there are none.
pub open spec fn is_block_max<F: Fn(&[u64]) -> u64>(
    f: F,
    data: Seq<u64>,
    n_elem: nat,
    nv: nat,
    idx: Seq<usize>,
    s: int,
    m: u64,
) -> bool {
    exists|q: Seq<Option<u64>>|
        #[trigger] quantities(f, records_in(data, n_elem, nv, s, idx), q) && m == largest_or_zero(q)
}

/// `n` of the elements have a quantity above `t` at state `s`.
pub open spec fn is_block_count<F: Fn(&[u64]) -> u64>(
    f: F,
    data: Seq<u64>,
    n_elem: nat,
    nv: nat,
    idx: Seq<usize>,
    s: int,
    t: u64,
    n: usize,
) -> bool {
    exists|q: Seq<Option<u64>>|
        #[trigger] quantities(f, records_in(data, n_elem, nv, s, idx), q) && n == count_above(t, q)
}

/// For each state, how many elements of a part have a quantity above the threshold;
/// and how many elements the part has.
pub fn part_failure_counts<F: Fn(&[u64]) -> u64>(
    data: &[u64],
    n_states: usize,
    n_elem: usize,
    nv: usize,
    part_ids: &[i64],
    part: i64,
    threshold: u64,
    quantity: F,
) -> (r: (Vec<usize>, usize))
    requires
        holds_records(
            data@.len(),
            n_states as nat,
            n_elem as nat,
            nv as nat,
            positions_of(ids_of(part_ids@, n_elem as nat), part),
        ),
        takes_records(quantity, nv as nat),
    ensures
        r.0@.len() == n_states,
        r.1 == positions_of(ids_of(part_ids@, n_elem as nat), part).len(),
        forall|s: int|
            0 <= s < n_states ==> is_block_count(
                quantity,
                data@,
                n_elem as nat,
                nv as nat,
                positions_of(ids_of(part_ids@, n_elem as nat), part),
                s,
                threshold,
                #[trigger] r.0@[s],
            ),
{
    let idx: Vec<usize> = block_indices(n_elem, part_ids, part);
    let mut out: Vec<usize> = Vec::new();
    for s in 0..n_states
        invariant
            holds_records(data@.len(), n_states as nat, n_elem as nat, nv as nat, idx@),
            takes_records(quantity, nv as nat),
            out@.len() == s,
            forall|k: int|
                0 <= k < s ==> is_block_count(
                    quantity,
                    data@,
                    n_elem as nat,
                    nv as nat,
                    idx@,
                    k,
                    threshold,
                    #[trigger] out@[k],
                ),
    {
        let q: Vec<Option<u64>> = ask(data, n_states, n_elem, nv, s, &idx, &quantity);
        let m: usize = count_over(&q, threshold);
        out.push(m);
        assert(is_block_count(
            quantity,
            data@,
            n_elem as nat,
            nv as nat,
            idx@,
            s as int,
            threshold,
            m,
        ));
    }
    (out, idx.len())
}

/// For each state, the quantity of each element of a part, in the order of the block.
pub fn part_values<F: Fn(&[u64]) -> u64>(
    data: &[u64],
    n_states: usize,
    n_elem: usize,
    nv: usize,
    part_ids: &[i64],
    part: i64,
    quantity: F,
) -> (r: Vec<Vec<u64>>)
    requires
        holds_records(
            data@.len(),
            n_states as nat,
            n_elem as nat,
            nv as nat,
            positions_of(ids_of(part_ids@, n_elem as nat), part),
        ),
        takes_records(quantity, nv as nat),
    ensures
        r@.len() == n_states,
        forall|s: int|
            0 <= s < n_states ==> are_values(
                quantity,
                data@,
                n_elem as nat,
                nv as nat,
                positions_of(ids_of(part_ids@, n_elem as nat), part),
                s,
                (#[trigger] r@[s])@,
            ),
{
    let idx: Vec<usize> = block_indices(n_elem, part_ids, part);
    let mut out: Vec<Vec<u64>> = Vec::new();
    for s in 0..n_states
        invariant
            holds_records(data@.len(), n_states as nat, n_elem as nat, nv as nat, idx@),
            takes_records(quantity, nv as nat),
            out@.len() == s,
            forall|k: int|
                0 <= k < s ==> are_values(
                    quantity,
                    data@,
                    n_elem as nat,
                    nv as nat,
                    idx@,
                    k,
                    (#[trigger] out@[k])@,
                ),
    {
        let q: Vec<Option<u64>> = ask(data, n_states, n_elem, nv, s, &idx, &quantity);
        let mut row: Vec<u64> = Vec::new();
        for i in 0..q.len()
            invariant
                forall|i: int| 0 <= i < q@.len() ==> (#[trigger] q@[i]) is Some,
                row@.len() == i,
                forall|k: int| 0 <= k < i ==> q@[k] == Some(#[trigger] row@[k]),
        {
            assert(q@[i as int] is Some);
            if let Some(v) = q[i] {
                row.push(v);
            }
        }
        proof {
            let recs = records_in(data@, n_elem as nat, nv as nat, s as int, idx@);
            assert forall|i: int| 0 <= i < idx@.len() implies crate::d3plot::extract::gives(
                quantity,
                record_in(data@, n_elem as nat, nv as nat, s as int, idx@[i] as int),
                #[trigger] row@[i],
            ) by {
                assert(recs[i] is Some);
            }
        }
        out.push(row);
    }
    out
}

/// The values are those of the quantity, one for each of the elements.
pub open spec fn are_values<F: Fn(&[u64]) -> u64>(
    f: F,
    data: Seq<u64>,
    n_elem: nat,
    nv: nat,
    idx: Seq<usize>,
    s: int,
    v: Seq<u64>,
) -> bool {
    &&& v.len() == idx.len()
    &&& forall|i: int|
        0 <= i < idx.len() ==> crate::d3plot::extract::gives(
            f,
            record_in(data, n_elem, nv, s, idx[i] as int),
            #[trigger] v[i],
        )
}

impl D3plot {
    /// `r` says what stands where in the shell records of the file.
    pub open spec fn is_shell_layout(self, r: ShellLayout) -> bool {
        &&& r.n_layers == self.ctrl@.n_shell_layers()
        &&& r.has_stress == (self.ctrl.ioshl1 == IOSHL_PRESENT)
        &&& r.has_pstrain == (self.ctrl.ioshl2 == IOSHL_PRESENT)
        &&& r.has_forces == (self.ctrl.ioshl3 == IOSHL_PRESENT)
        &&& r.has_extra == (self.ctrl.ioshl4 == IOSHL_PRESENT)
        &&& r.stride == (if r.has_stress {
            6int
        } else {
            0
        }) + (if r.has_pstrain {
            1int
        } else {
            0
        }) + self.ctrl.neips
    }

    /// What stands where in the shell records of the file.
    pub fn shell_layout(&self) -> (r: ShellLayout)
        requires
            self.wf(),
            self.ctrl.neips <= usize::MAX - 7,
        ensures
            self.is_shell_layout(r),
    {
        let has_stress: bool = self.ctrl.has_shell_stress();
        let has_pstrain: bool = self.ctrl.has_shell_pstrain();
        let a: usize = if has_stress { 6 } else { 0 };
        let b: usize = if has_pstrain { 1 } else { 0 };
        ShellLayout {
            n_layers: self.ctrl.n_shell_layers(),
            stride: a + b + self.ctrl.neips,
            has_stress,
            has_pstrain,
            has_forces: self.ctrl.ioshl3 == IOSHL_PRESENT,
            has_extra: self.ctrl.ioshl4 == IOSHL_PRESENT,
        }
    }
}

/// The place of a pattern in the total order of doubles: negative ones first, and the
/// zeros and NaNs told apart.
pub open spec fn total_key(b: u64) -> u64 {
    if b < 0x8000_0000_0000_0000 {
        (b + 0x8000_0000_0000_0000) as u64
    } else {
        (u64::MAX - b) as u64
    }
}

fn total_place(b: u64) -> (r: u64)
    ensures
        r == total_key(b),
{
    if b < 0x8000_0000_0000_0000 {
        b + 0x8000_0000_0000_0000
    } else {
        u64::MAX - b
    }
}

/// The values are in the total order of doubles.
pub open spec fn in_total_order(s: Seq<u64>) -> bool {
    forall|i: int, j: int| 0 <= i < j < s.len() ==> total_key(s[i]) <= total_key(s[j])
}

/// Calls `slice::sort_unstable_by_key` with the place of each value in the total order
/// as its key. The values are then in that order, and are the same values as before,
/// each as often.
#[verifier::external_body]
fn sort_by_place(v: &mut Vec<u64>)
    ensures
        in_total_order(final(v)@),
        final(v)@.to_multiset() == old(v)@.to_multiset(),
{
    v.sort_unstable_by_key(|b| total_place(*b));
}

/// The values in the total order of doubles.
pub fn ranked(values: Vec<u64>) -> (r: Vec<u64>)
    ensures
        in_total_order(r@),
        r@.to_multiset() == values@.to_multiset(),
{
    let mut v: Vec<u64> = values;
    sort_by_place(&mut v);
    v
}

/// The total order tells all patterns apart, and a lesser number comes first.
pub proof fn law_total_order(a: u64, b: u64)
    ensures
        total_key(a) == total_key(b) ==> a == b,
        crate::ieee::double_lt(a, b) ==> total_key(a) < total_key(b),
{
}

/// Layers do not overlap: each ends before the next begins, and before what belongs to
/// the element, where its stresses and strain fit into its words.
pub proof fn law_layers_are_apart(layout: ShellLayout, a: nat, b: nat)
    requires
        a < b <= layout.n_layers,
        (if layout.has_stress {
            6int
        } else {
            0
        }) + (if layout.has_pstrain {
            1int
        } else {
            0
        }) <= layout.stride,
    ensures
        layout.layer_off(a) + (if layout.has_stress {
            6int
        } else {
            0
        }) + (if layout.has_pstrain {
            1int
        } else {
            0
        }) <= layout.layer_off(b),
{
    assert(a * (layout.stride as nat) + layout.stride <= b * (layout.stride as nat))
        by (nonlinear_arith)
        requires
            a < b,
    ;
}

} // verus!
