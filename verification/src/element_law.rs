//! Element records: which word is what.

use crate::d3plot::reader::D3plot;
use crate::element::{
    are_beam_resultants, ids_of, pstrain_of, record_in, stresses_of, stresses_upto, BeamResultants,
    LayerSelect, ShellLayout, ShellResultants,
};
use vstd::prelude::*;

verus! {

/// The words of a beam record are the axial force, two shear forces, two bending moments
/// and the torsion moment.
pub proof fn law_beam_record(rec: Seq<u64>, r: Option<BeamResultants>)
    requires
        are_beam_resultants(rec, r),
    ensures
        rec.len() < 6 <==> r is None,
        r matches Some(b) ==> {
            &&& b.axial_force == rec[0]
            &&& b.shear_force@.len() == 2
            &&& b.shear_force@[0] == rec[1]
            &&& b.shear_force@[1] == rec[2]
            &&& b.bending_moment@.len() == 2
            &&& b.bending_moment@[0] == rec[3]
            &&& b.bending_moment@[1] == rec[4]
            &&& b.torsion_moment == rec[5]
        },
{
}

/// The header says what a shell record holds: six stresses, a plastic strain and history
/// variables for each layer, and behind the layers eight resultants and the thickness.
pub proof fn law_shell_layout(d: D3plot, l: ShellLayout)
    requires
        d.is_shell_layout(l),
    ensures
        d.ctrl.ioshl1 == 1000 <==> l.has_stress,
        d.ctrl.ioshl2 == 1000 <==> l.has_pstrain,
        d.ctrl.ioshl3 == 1000 <==> l.has_forces,
        d.ctrl.ioshl4 == 1000 <==> l.has_extra,
        l.has_stress && l.has_pstrain ==> l.stride == 7 + d.ctrl.neips,
        l.has_stress && !l.has_pstrain ==> l.stride == 6 + d.ctrl.neips,
        !l.has_stress && l.has_pstrain ==> l.stride == 1 + d.ctrl.neips,
        !l.has_stress && !l.has_pstrain ==> l.stride == d.ctrl.neips,
        d.ctrl.maxint >= 0 ==> l.n_layers == d.ctrl.maxint,
        -10000 < d.ctrl.maxint < 0 ==> l.n_layers == -d.ctrl.maxint,
        d.ctrl.maxint <= -10000 ==> l.n_layers == -d.ctrl.maxint - 10000,
{
}

/// The bottom layer is the first, the top layer the last, and the middle one has as many
/// below it as above, or one more. A number stands for its layer, and for the last where
/// there are fewer layers.
pub proof fn law_chosen_layer(l: ShellLayout, k: usize)
    ensures
        l.n_layers == 0 ==> l.chosen(LayerSelect::Bottom) is None && l.chosen(LayerSelect::Top) is None
            && l.chosen(LayerSelect::Mid) is None && l.chosen(LayerSelect::Index(k)) is None,
        l.chosen(LayerSelect::Max) is None,
        l.n_layers > 0 ==> {
            &&& l.chosen(LayerSelect::Bottom) == Some(0usize)
            &&& l.chosen(LayerSelect::Top) matches Some(t) && t + 1 == l.n_layers
            &&& l.chosen(LayerSelect::Mid) matches Some(m) && (m == l.n_layers - 1 - m || m
                == l.n_layers - m)
            &&& k < l.n_layers ==> l.chosen(LayerSelect::Index(k)) == Some(k)
            &&& k >= l.n_layers ==> l.chosen(LayerSelect::Index(k)) == l.chosen(LayerSelect::Top)
        },
{
}

/// In each layer the stresses stand first, and the plastic strain stands behind them.
pub proof fn law_layer_words(l: ShellLayout, rec: Seq<u64>, layer: nat, i: int)
    requires
        layer < l.n_layers,
        l.n_layers * l.stride <= rec.len(),
        l.has_stress ==> l.stride >= 6,
        l.has_stress && l.has_pstrain ==> l.stride >= 7,
        l.has_pstrain ==> l.stride >= 1,
        0 <= i < 6,
    ensures
        l.has_stress ==> (l.stress_at(rec, layer) matches Some(s) && s.len() == 6 && s[i]
            == rec[layer * l.stride + i]),
        !l.has_stress ==> l.stress_at(rec, layer) is None,
        l.has_pstrain && l.has_stress ==> l.pstrain_at(rec, layer) == Some(
            rec[layer * l.stride + 6],
        ),
        l.has_pstrain && !l.has_stress ==> l.pstrain_at(rec, layer) == Some(rec[layer * l.stride]),
        !l.has_pstrain ==> l.pstrain_at(rec, layer) is None,
{
    let n = l.n_layers as int;
    let w = l.stride as int;
    assert(0 <= layer * w && layer * w + w <= n * w) by (nonlinear_arith)
        requires
            0 <= layer < n,
            w >= 0,
    ;
}

/// Behind the layers stand three bending moments, two shear forces, three normal forces
/// and the thickness.
pub proof fn law_shell_resultants(
    l: ShellLayout,
    rec: Seq<u64>,
    r: Option<ShellResultants>,
    i: int,
)
    requires
        l.are_resultants(rec, r),
        0 <= i < 3,
    ensures
        ({
            let b = l.n_layers * l.stride;
            &&& r is Some <==> l.has_forces && rec.len() >= b + 8
            &&& r matches Some(x) ==> {
                &&& x.bending_moment@[i] == rec[b + i]
                &&& i < 2 ==> x.shear_force@[i] == rec[b + 3 + i]
                &&& x.normal_force@[i] == rec[b + 5 + i]
                &&& l.has_extra && rec.len() > b + 8 ==> x.thickness == Some(rec[b + 8])
                &&& !l.has_extra || rec.len() <= b + 8 ==> x.thickness is None
            }
        }),
{
    let n = l.n_layers as int;
    let w = l.stride as int;
    assert(0 <= n * w) by (nonlinear_arith)
        requires
            n >= 0,
            w >= 0,
    ;
    if let Some(x) = r {
        let b = n * w;
        assert(rec.subrange(b, b + 3)[i] == rec[b + i]);
        if i < 2 {
            assert(rec.subrange(b + 3, b + 5)[i] == rec[b + 3 + i]);
        }
        assert(rec.subrange(b + 5, b + 8)[i] == rec[b + 5 + i]);
    }
}

/// A selector picks the stresses and the strain of its layer; the stresses of all layers
/// stand in their order.
pub proof fn law_selected_layer(l: ShellLayout, rec: Seq<u64>, sel: LayerSelect, n: nat)
    requires
        n <= l.n_layers,
        forall|k: nat| k < l.n_layers ==> #[trigger] l.stress_at(rec, k) is Some,
    ensures
        l.chosen(sel) matches Some(k) ==> {
            &&& k < l.n_layers
            &&& stresses_of(rec, l, sel) == seq![l.stress_at(rec, k as nat)->0]
            &&& l.pstrain_at(rec, k as nat) matches Some(x) ==> pstrain_of(rec, l, sel) == x
            &&& l.pstrain_at(rec, k as nat) is None ==> pstrain_of(rec, l, sel) == 0
        },
        stresses_upto(rec, l, n).len() == n,
        forall|k: int|
            0 <= k < n ==> #[trigger] stresses_upto(rec, l, n)[k] == l.stress_at(rec, k as nat)->0,
        stresses_of(rec, l, LayerSelect::Max) == stresses_upto(rec, l, l.n_layers as nat),
    decreases n,
{
    if n > 0 {
        law_selected_layer(l, rec, sel, (n - 1) as nat);
        assert(l.stress_at(rec, (n - 1) as nat) is Some);
    }
    if let Some(k) = l.chosen(sel) {
        assert(l.stress_at(rec, k as nat) is Some);
    }
}

/// The record of an element is its row of the state, and its part stands at its place.
pub proof fn law_rows_of_block(
    data: Seq<u64>,
    parts: Seq<i64>,
    n: nat,
    nv: nat,
    s: int,
    e: int,
    v: int,
)
    requires
        0 <= s,
        0 <= e < n,
        0 <= v < nv,
        (s * n + e + 1) * nv <= data.len(),
    ensures
        record_in(data, n, nv, s, e).len() == nv,
        record_in(data, n, nv, s, e)[v] == data[(s * n + e) * nv + v],
        e < parts.len() ==> ids_of(parts, n).len() > e && ids_of(parts, n)[e] == parts[e],
        ids_of(parts, n).len() <= n,
{
    let r = s * n + e;
    assert((r + 1) * nv == r * nv + nv && 0 <= s * n) by (nonlinear_arith)
        requires
            0 <= s,
    ;
    assert(0 <= r * nv) by (nonlinear_arith)
        requires
            r >= 0,
    ;
}

} // verus!
