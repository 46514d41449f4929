//! Result blocks: their states and components, the selection of states, and the words that
//! the values of a block come from.

use crate::d3plot::block::{component_name, label_position, product_from, ResultBlock};
use crate::d3plot::control::ControlView;
use crate::d3plot::extract::{first_bad, index_message};
use crate::d3plot::header_law::mesh_word;
use crate::d3plot::query::{fsifor_column, interface_span, BlockArray};
use crate::d3plot::reader::{family_states, file_states, states_in, D3plot};
use crate::d3plot::state_law::state_word;
use crate::d3plot::words::float_at;
use crate::d3plot::{D3plotError, FsiforField, InterfaceField, StateBlock};
use crate::text::dec;
use vstd::prelude::*;

verus! {

/// A table of `n` rows of `w` values has `n` states, and state `i` is row `i`. A table of
/// three dimensions has the `w` values of each of `e` entities in a state. Nothing less is
/// a table of states.
pub proof fn law_block_states(b: ResultBlock, n: nat, e: nat, w: nat, i: int)
    requires
        0 <= i,
    ensures
        b.dims@.len() < 2 ==> b.state_values(i) is None,
        b.dims@.len() >= 1 && i >= b.dims@[0] ==> b.state_values(i) is None,
        b.dims@ == seq![n as usize, w as usize] && n <= usize::MAX && w <= usize::MAX
            && b.data@.len() == n * w && i < n ==> b.state_values(i) == Some(
            b.data@.skip(i * w).take(w as int),
        ),
        b.dims@ == seq![n as usize, e as usize, w as usize] && n <= usize::MAX && e <= usize::MAX
            && w <= usize::MAX && b.data@.len() == n * (e * w) && i < n ==> b.state_values(i)
            == Some(b.data@.skip(i * (e * w)).take((e * w) as int)),
{
    reveal_with_fuel(product_from, 4);
    if b.dims@ == seq![n as usize, w as usize] && n <= usize::MAX && w <= usize::MAX
        && b.data@.len() == n * w && i < n {
        assert(product_from(b.dims@, 1) == w * 1);
        lemma_row(b.data@, n, w, i);
    }
    if b.dims@ == seq![n as usize, e as usize, w as usize] && n <= usize::MAX && e <= usize::MAX
        && w <= usize::MAX && b.data@.len() == n * (e * w) && i < n {
        assert(product_from(b.dims@, 1) == e * (w * 1));
        lemma_row(b.data@, n, e * w, i);
    }
}

proof fn lemma_row(data: Seq<u64>, n: nat, w: nat, i: int)
    requires
        data.len() == n * w,
        0 <= i < n,
    ensures
        (i + 1) * w <= n * w,
        data.subrange(i * w, (i + 1) * w) == data.skip(i * w).take(w as int),
{
    assert((i + 1) * w == i * w + w && 0 <= i * w && (i + 1) * w <= n * w) by (nonlinear_arith)
        requires
            0 <= i < n,
    ;
    assert(data.subrange(i * w, (i + 1) * w) =~= data.skip(i * w).take(w as int));
}

/// The values of component `j` are those in column `j` of the rows of a block whose rows
/// have a name for each value.
pub proof fn law_component(b: ResultBlock, n: nat, j: int, k: int)
    requires
        b.dims@.len() > 0,
        b.dims@.last() == b.components@.len(),
        b.data@.len() == n * b.components@.len(),
        0 <= j < b.components@.len(),
        0 <= k < n,
        forall|i: int| 0 <= i < j ==> (#[trigger] b.components@[i])@ != b.components@[j]@,
    ensures
        ({
            let w = b.components@.len();
            &&& b.component_values(b.components@[j]@) matches Some(v)
            &&& v.len() == n
            &&& v[k] == b.data@[k * w + j]
        }),
{
    let w = b.components@.len();
    let name = b.components@[j]@;
    lemma_first_label(b.components@, name, 0, j);
    let len = b.data@.len();
    assert(j < len) by (nonlinear_arith)
        requires
            len == n * w,
            0 <= j < w,
            n >= 1,
    ;
    assert((len - j + w - 1) / (w as int) == n) by (nonlinear_arith)
        requires
            len == n * w,
            0 <= j < w,
    ;
}

/// A name that is no component has no values.
pub proof fn law_no_component(b: ResultBlock, name: Seq<char>)
    requires
        forall|i: int| 0 <= i < b.components@.len() ==> (#[trigger] b.components@[i])@ != name,
    ensures
        b.component_values(name) is None,
{
    lemma_no_label(b.components@, name, 0);
}

proof fn lemma_first_label(s: Seq<String>, name: Seq<char>, i: int, j: int)
    requires
        0 <= i <= j < s.len(),
        s[j]@ == name,
        forall|k: int| 0 <= k < j ==> (#[trigger] s[k])@ != name,
    ensures
        label_position(s, name, i) == Some(j),
    decreases j - i,
{
    if i < j {
        lemma_first_label(s, name, i + 1, j);
    }
}

proof fn lemma_no_label(s: Seq<String>, name: Seq<char>, i: int)
    requires
        0 <= i,
        forall|k: int| 0 <= k < s.len() ==> (#[trigger] s[k])@ != name,
    ensures
        label_position(s, name, i) is None,
    decreases s.len() - i,
{
    if i < s.len() {
        lemma_no_label(s, name, i + 1);
    }
}

/// The values of an element record are the stresses xx, yy, zz, xy, yz and zx, the
/// effective plastic strain, and history variables that are numbered from 0.
pub proof fn law_component_names(i: nat)
    ensures
        component_name(0) == "sigma_xx"@,
        component_name(1) == "sigma_yy"@,
        component_name(2) == "sigma_zz"@,
        component_name(3) == "sigma_xy"@,
        component_name(4) == "sigma_yz"@,
        component_name(5) == "sigma_zx"@,
        component_name(6) == "eff_plastic_strain"@,
        component_name(i + 7) == "hist_"@ + dec(i),
{
}

/// Index `i` of a selection stands for state `i`, and `-i` for state `n - i` of `n`. A
/// selection is refused if and only if an index is outside of `-n .. n`, and the first
/// such index is named.
pub proof fn law_selection(d: D3plot, s: &[i64], r: Result<Vec<usize>, D3plotError>, k: int)
    requires
        d.is_selection(Some(s), r),
        0 <= k < s@.len(),
    ensures
        ({
            let n = d.states@.len();
            let fine = |i: int| -n <= s@[i] < n;
            &&& r is Ok <==> forall|i: int| 0 <= i < s@.len() ==> #[trigger] fine(i)
            &&& r matches Ok(v) ==> {
                &&& v@.len() == s@.len()
                &&& s@[k] >= 0 ==> v@[k] == s@[k]
                &&& s@[k] < 0 ==> v@[k] == n + s@[k]
            }
            &&& !fine(k) && (forall|i: int| 0 <= i < k ==> #[trigger] fine(i)) ==> (r matches Err(e)
                && e.says(index_message(s@[k], n)))
        }),
{
    let n = d.states@.len();
    let fine = |i: int| -n <= s@[i] < n;
    let j = lemma_first_bad(s@, n, 0);
    assert(d.states@.len() == d.states.len());
    if first_bad(s@, n, 0) is Some {
        assert(!fine(j));
        if !fine(k) && (forall|i: int| 0 <= i < k ==> #[trigger] fine(i)) {
            if j < k {
                assert(fine(j));
            }
        }
    } else {
        assert forall|i: int| 0 <= i < s@.len() implies #[trigger] fine(i) by {
            assert(-n <= s@[i] < n);
        }
        assert(fine(k));
    }
}

/// All states, in order, when nothing is selected.
pub proof fn law_no_selection(d: D3plot, r: Result<Vec<usize>, D3plotError>, k: int)
    requires
        d.is_selection(None, r),
        0 <= k < d.states@.len(),
    ensures
        r matches Ok(v) && v@.len() == d.states@.len() && v@[k] == k,
{
    assert(d.states@.len() == d.states.len());
}

spec fn is_first_bad(s: Seq<i64>, n: nat, i: int, j: int, x: i64) -> bool {
    &&& i <= j < s.len()
    &&& s[j] == x
    &&& !(-n <= s[j] < n)
    &&& forall|l: int| i <= l < j ==> -n <= #[trigger] s[l] < n
}

proof fn lemma_first_bad(s: Seq<i64>, n: nat, i: int) -> (j: int)
    requires
        0 <= i,
    ensures
        first_bad(s, n, i) is None ==> forall|l: int|
            i <= l < s.len() ==> -n <= #[trigger] s[l] < n,
        first_bad(s, n, i) is Some ==> is_first_bad(s, n, i, j, first_bad(s, n, i)->0),
    decreases s.len() - i,
{
    if i < s.len() && -n <= s[i] < n {
        lemma_first_bad(s, n, i + 1)
    } else {
        i
    }
}

proof fn lemma_selected(d: D3plot, sel: Seq<usize>, off: nat, n: nat, k: int, i: int)
    requires
        d.wf(),
        forall|j: int| 0 <= j < sel.len() ==> #[trigger] sel[j] < d.states@.len(),
        0 <= k < sel.len(),
        0 <= i < n,
    ensures
        d.gather(sel, off, n).len() == sel.len() * n,
        0 <= k * n + i < sel.len() * n,
        d.gather(sel, off, n)[k * n + i] == state_word(d, sel[k] as int, off + i),
    decreases sel.len(),
{
    let rest = sel.drop_last();
    let m = rest.len();
    let ws = d.ctrl@.wordsize;
    assert(sel.len() * n == m * n + n && 0 <= m * n) by (nonlinear_arith)
        requires
            sel.len() == m + 1,
    ;
    assert(0 <= k * n && k * n + n <= sel.len() * n) by (nonlinear_arith)
        requires
            0 <= k < sel.len(),
    ;
    reveal_with_fuel(D3plot::gather, 2);
    if m > 0 {
        lemma_selected(d, rest, off, n, if k < m { k } else { 0 }, i);
    } else {
        assert(0 * n == 0);
    }
    if k < m {
        assert(k * n + n <= m * n) by (nonlinear_arith)
            requires
                0 <= k < m,
        ;
    } else {
        assert(k * n == m * n);
        assert((off + i) * ws == off * ws + i * ws) by (nonlinear_arith);
    }
}

/// Value `v` of entity `e` in the selected state `k` of a block.
pub open spec fn value_place(p: (nat, nat, nat), k: int, e: int, v: int) -> int {
    (k * p.1 + e) * p.2 + v
}

proof fn lemma_block_value(
    d: D3plot,
    p: (nat, nat, nat),
    sel: Seq<usize>,
    k: int,
    e: int,
    v: int,
)
    requires
        d.wf(),
        forall|j: int| 0 <= j < sel.len() ==> #[trigger] sel[j] < d.states@.len(),
        0 <= k < sel.len(),
        0 <= e < p.1,
        0 <= v < p.2,
    ensures
        d.gather(sel, p.0, p.1 * p.2).len() == sel.len() * (p.1 * p.2),
        d.gather(sel, p.0, p.1 * p.2)[value_place(p, k, e, v)] == state_word(
            d,
            sel[k] as int,
            p.0 + e * p.2 + v,
        ),
{
    let i = e * p.2 + v;
    assert(0 <= i < p.1 * p.2) by (nonlinear_arith)
        requires
            i == e * p.2 + v,
            0 <= e < p.1,
            0 <= v < p.2,
    ;
    assert((k * p.1 + e) * p.2 == k * (p.1 * p.2) + e * p.2) by (nonlinear_arith);
    lemma_selected(d, sel, p.0, p.1 * p.2, k, i);
}

/// The values of a result block stand in the order of the states that were selected, of
/// the entities and of the values of each. Value `v` of entity `e` is word `e * w + v` of
/// the block in its state, where each entity has `w` words.
pub proof fn law_block_values(
    d: D3plot,
    block: StateBlock,
    sel: Seq<usize>,
    b: ResultBlock,
    x: (BlockArray, [usize; 3]),
    k: int,
    e: int,
    v: int,
)
    requires
        d.wf(),
        forall|j: int| 0 <= j < sel.len() ==> #[trigger] sel[j] < d.states@.len(),
        d.is_labelled_block(b, block, sel),
        d.is_block_data(block, sel, x),
        0 <= k < sel.len() <= usize::MAX,
        0 <= e < d.ctrl@.block_place(block).1 <= usize::MAX,
        0 <= v < d.ctrl@.block_place(block).2 <= usize::MAX,
    ensures
        ({
            let p = d.ctrl@.block_place(block);
            let at = value_place(p, k, e, v);
            let y = state_word(d, sel[k] as int, p.0 + e * p.2 + v);
            &&& b.dims@ == seq![sel.len() as usize, p.1 as usize, p.2 as usize]
            &&& b.data@[at] == y
            &&& b.components@.len() == p.2
            &&& b.components@[v]@ == component_name(v as nat)
            &&& x.1@ == b.dims@
            &&& x.0.doubles()[at] == y
        }),
{
    lemma_block_value(d, d.ctrl@.block_place(block), sel, k, e, v);
}

/// The record of an element is its row in the block.
pub proof fn law_element_record(
    d: D3plot,
    block: StateBlock,
    s: usize,
    e: usize,
    r: Option<Vec<u64>>,
    v: int,
)
    requires
        d.wf(),
        d.is_element_result(block, s, e, r),
    ensures
        ({
            let p = d.ctrl@.block_place(block);
            &&& r is Some <==> d.ctrl@.has_block(block) && s < d.states@.len() && e < p.1
            &&& r matches Some(x) ==> {
                &&& x@.len() == p.2
                &&& 0 <= v < p.2 ==> x@[v] == state_word(d, s as int, p.0 + e * p.2 + v)
            }
        }),
{
    let p = d.ctrl@.block_place(block);
    let ws = d.ctrl@.wordsize;
    let o = p.0 + e as nat * p.2;
    assert((o + v) * ws == o * ws + v * ws) by (nonlinear_arith);
    if s < d.states@.len() {
        d.lemma_place(s as int);
    }
}

/// A view of a block starts at the first word of the block in the first selected state, and
/// each selected state is one distance behind the one before, in the same file.
pub proof fn law_view(
    d: D3plot,
    block: StateBlock,
    sel: Seq<usize>,
    x: (usize, usize, [usize; 3], usize),
    k: int,
)
    requires
        d.is_block_view(block, sel, x),
        d.evenly_spaced(sel, d.view_stride(sel)),
        d.ctrl.wordsize == 4,
        0 <= k < sel.len(),
    ensures
        ({
            let p = d.ctrl@.block_place(block);
            let at = d.states@[sel[k] as int];
            &&& x.0 == at.file
            &&& x.1 + k * x.3 == at.offset + p.0 * 4
            &&& x.2@ == seq![sel.len() as usize, p.1 as usize, p.2 as usize]
        }),
    decreases k,
{
    if k > 0 {
        law_view(d, block, sel, x, k - 1);
        assert(d.even_step(sel, k - 1, d.view_stride(sel)));
        assert(k * x.3 == (k - 1) * x.3 + x.3) by (nonlinear_arith);
    } else {
        assert(0 * x.3 == 0);
    }
}

/// The parts of solids and shells are the last words of their records.
pub proof fn law_block_parts(d: D3plot, x: (Vec<u64>, [usize; 3], Vec<i64>), block: StateBlock, e: int)
    requires
        d.wf(),
        d.ctrl.geom_bytes <= d.files@[0]@.len(),
        d.is_element_block(block, x),
        block is Solid || block is Shell,
        0 <= e,
    ensures
        ({
            let at = 9 * d.ctrl.nel8 + 9 * d.ctrl.nelth + 6 * d.ctrl.nel2;
            &&& block is Solid && e < d.ctrl.nel8 ==> x.2@.len() == d.ctrl.nel8 && x.2@[e]
                == mesh_word(d, 9 * e + 8) as i64
            &&& block is Shell && e < d.ctrl.nel4 ==> x.2@.len() == d.ctrl.nel4 && x.2@[e]
                == mesh_word(d, at + 5 * e + 4) as i64
        }),
{
    if block is Solid && e < d.ctrl.nel8 {
        crate::d3plot::header_law::lemma_solid_part(d, e);
    }
    if block is Shell && e < d.ctrl.nel4 {
        crate::d3plot::header_law::lemma_shell_part(d, e);
    }
}

/// The coordinates of a node are three words, behind the global variables.
pub proof fn law_coordinates(d: D3plot, s: int, node: int, i: int)
    requires
        d.wf(),
        0 <= s < d.states@.len(),
        0 <= node < d.ctrl.numnp,
        0 <= i < 3,
    ensures
        ({
            let x = state_word(d, s, 1 + d.ctrl.nglbv + 3 * node + i);
            let n = 3 * d.ctrl.numnp;
            &&& d.coordinates_in(s).len() == n
            &&& d.coordinates_in(s)[3 * node + i] == x
            &&& d.all_coordinates().len() == d.states@.len() * n
            &&& d.all_coordinates()[s * n + 3 * node + i] == x
        }),
{
    let ws = d.ctrl@.wordsize;
    let off = 1 + d.ctrl@.nglbv;
    let j = 3 * node + i;
    d.lemma_place(s);
    assert((off + j) * ws == off * ws + j * ws) by (nonlinear_arith);
    assert(d.states@.len() == d.states.len());
    let sel = d.every_state();
    assert forall|k: int| 0 <= k < sel.len() implies #[trigger] sel[k] < d.states@.len() by {}
    lemma_selected(d, sel, off, 3 * d.ctrl.numnp as nat, s, j);
}

/// The states of a file follow each other without a gap, up to the first that is not whole
/// or starts with the end marker.
pub proof fn law_states_of_file(b: Seq<u8>, off: int, bps: nat, ws: nat, i: int)
    requires
        0 <= off,
        bps > 0,
        0 <= i,
    ensures
        ({
            let s = states_in(b, off, bps, ws);
            let next = off + s.len() * bps;
            &&& i < s.len() ==> s[i] == off + i * bps && s[i] + bps <= b.len() && float_at(
                b,
                s[i],
                ws,
            ) != 0xC12E_847E_0000_0000
            &&& next + bps > b.len() || float_at(b, next, ws) == 0xC12E_847E_0000_0000
        }),
    decreases b.len() - off,
{
    let s = states_in(b, off, bps, ws);
    if off + bps <= b.len() && float_at(b, off, ws) != 0xC12E_847E_0000_0000 {
        law_states_of_file(b, off + bps, bps, ws, if i > 0 { i - 1 } else { 0 });
        let rest = states_in(b, off + bps, bps, ws);
        assert(s.len() == rest.len() + 1);
        assert(s.len() * bps == rest.len() * bps + bps && i * bps == (i - 1) * bps + bps)
            by (nonlinear_arith)
            requires
                s.len() == rest.len() + 1,
        ;
        assert(0 * bps == 0);
    } else {
        assert(0 * bps == 0);
    }
}

/// The states of a family are those of its files, file by file. They start behind the
/// geometry in the base file and at the first byte of the others.
pub proof fn law_states_of_family(files: Seq<Vec<u8>>, n: nat, v: ControlView)
    ensures
        family_states(files, 0, v).len() == 0,
        family_states(files, n + 1, v).len() == family_states(files, n, v).len() + file_states(
            files,
            n as int,
            v,
        ).len(),
        family_states(files, n + 1, v).take(family_states(files, n, v).len() as int)
            == family_states(files, n, v),
        forall|i: int|
            0 <= i < file_states(files, n as int, v).len() ==> #[trigger] family_states(
                files,
                n + 1,
                v,
            )[family_states(files, n, v).len() + i] == (n as int, file_states(files, n as int, v)[i]),
        file_states(files, 0, v) == states_in(
            files[0]@,
            v.geom_bytes as int,
            v.bytes_per_state(),
            v.wordsize,
        ),
        file_states(files, n as int + 1, v) == states_in(
            files[n as int + 1]@,
            0,
            v.bytes_per_state(),
            v.wordsize,
        ),
{
    let a = family_states(files, n, v);
    assert(family_states(files, n + 1, v).take(a.len() as int) =~= a);
}

/// The time of a state is its first word.
pub proof fn law_times(d: D3plot, s: int)
    requires
        d.wf(),
        0 <= s < d.states@.len(),
    ensures
        d.times@.len() == d.states@.len(),
        d.times@[s] == state_word(d, s, 0),
{
    assert(0 * d.ctrl.wordsize == 0);
    assert(crate::d3plot::reader::places(d.states@)[s] == (
        d.states@[s].file as int,
        d.states@[s].offset as int,
    ));
}

/// The record of a contact segment is made of wear, pressure, shear, force and gap, one
/// behind the other.
pub proof fn law_interface_record(v: ControlView)
    ensures
        ({
            let wear = interface_span(v, InterfaceField::Wear);
            let pressure = interface_span(v, InterfaceField::Pressure);
            let shear = interface_span(v, InterfaceField::Shear);
            let force = interface_span(v, InterfaceField::Force);
            let gap = interface_span(v, InterfaceField::Gap);
            &&& wear == (0nat, v.nwear)
            &&& pressure == (wear.0 + wear.1, v.npresu)
            &&& shear == (pressure.0 + pressure.1, v.nshear)
            &&& force == (shear.0 + shear.1, v.nforce)
            &&& gap == (force.0 + force.1, v.ngapc)
        }),
        fsifor_column(FsiforField::Pressure) == 0,
        fsifor_column(FsiforField::ForceX) == 1,
        fsifor_column(FsiforField::ForceY) == 2,
        fsifor_column(FsiforField::ForceZ) == 3,
        fsifor_column(FsiforField::RelativeVelocity) == 4,
        fsifor_column(FsiforField::VelocityX) == 5,
        fsifor_column(FsiforField::VelocityY) == 6,
        fsifor_column(FsiforField::VelocityZ) == 7,
{
}

} // verus!
