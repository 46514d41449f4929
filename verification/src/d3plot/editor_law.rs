//! What a reader makes of a database after one of its blocks was overwritten.

use crate::d3plot::control::{ControlView, EXTRA};
use crate::d3plot::editor::{
    law_overwritten_keeps_rest, law_overwritten_reads_back, overwritten, single_bytes,
};
use crate::d3plot::header::{
    after_bodies, after_roads, airbag_flags, control_of, coords, count, has_airbags, has_rigid_body,
    has_rigid_road, header_complete, header_of, lemma_rigid_end_grows, lemma_road_end_grows,
    lemma_walk_order, numbered, rigid_end, road_end, sph_flags, sph_vars, walked, with_airbags,
    word_at, word_size_of,
};
use crate::d3plot::reader::{
    family_states, file_at, file_states, lemma_within, places, states_in, times_at, D3plot,
};
use crate::d3plot::words::{float_at, floats_at};
use crate::ieee::widened;
use crate::le::lemma_le_at_same;
use vstd::prelude::*;

verus! {

/// Two files of the same length that agree on their first `g` words of four
/// bytes.
pub open spec fn same_words(b: Seq<u8>, c: Seq<u8>, g: nat) -> bool {
    &&& b.len() == c.len()
    &&& forall|i: int| 0 <= i < b.len() && i < 4 * g ==> #[trigger] c[i] == b[i]
}

/// The SPH flags lie within the geometry.
pub open spec fn sph_within(v: ControlView) -> bool {
    v.nmsph > 0 ==> (sph_flags(v) + 11) * 4 <= v.geom_bytes
}

proof fn lemma_word_same(b: Seq<u8>, c: Seq<u8>, g: nat, k: int)
    requires
        same_words(b, c, g),
        0 <= k < g,
    ensures
        word_at(c, 4, k) == word_at(b, 4, k),
{
    let o = k * 4;
    if o + 4 <= b.len() {
        assert forall|j: int| 0 <= j < 4 implies #[trigger] c[o + j] == b[o + j] by {}
        lemma_le_at_same(c, o, b, o, 4);
    }
}

proof fn lemma_rigid_end_same(b: Seq<u8>, c: Seq<u8>, g: nat, p: nat, n: nat)
    requires
        same_words(b, c, g),
        rigid_end(b, 4, p, n) <= g,
    ensures
        rigid_end(c, 4, p, n) == rigid_end(b, 4, p, n),
    decreases n,
{
    if n > 0 {
        let q = p + 2 + count(word_at(b, 4, p as int + 1));
        let r = q + 1 + count(word_at(b, 4, q as int));
        lemma_rigid_end_grows(b, 4, r, (n - 1) as nat);
        lemma_word_same(b, c, g, p as int + 1);
        lemma_word_same(b, c, g, q as int);
        lemma_rigid_end_same(b, c, g, r, (n - 1) as nat);
    }
}

proof fn lemma_road_end_same(b: Seq<u8>, c: Seq<u8>, g: nat, p: nat, n: nat)
    requires
        same_words(b, c, g),
        road_end(b, 4, p, n) <= g,
    ensures
        road_end(c, 4, p, n) == road_end(b, 4, p, n),
    decreases n,
{
    if n > 0 {
        let r = p + 2 + 4 * count(word_at(b, 4, p as int + 1));
        lemma_road_end_grows(b, 4, r, (n - 1) as nat);
        lemma_word_same(b, c, g, p as int + 1);
        lemma_road_end_same(b, c, g, r, (n - 1) as nat);
    }
}

/// The header words are the same.
proof fn lemma_header_same(b: Seq<u8>, c: Seq<u8>, g: nat)
    requires
        same_words(b, c, g),
        g >= 64,
        word_at(b, 4, EXTRA as int) > 1 ==> g >= 66,
        ({
            let h = header_of(b, 4);
            h.mattyp() ==> g > 64 + h.extra
        }),
    ensures
        header_of(c, 4) == header_of(b, 4),
        header_complete(c, 4) == header_complete(b, 4),
        word_size_of(b) == Some(4nat) ==> word_size_of(c) == Some(4nat),
{
    assert forall|k: int| 0 <= k < g implies word_at(c, 4, k) == #[trigger] word_at(b, 4, k) by {
        lemma_word_same(b, c, g, k);
    }
    let h = header_of(b, 4);
    let e = header_of(c, 4);
    assert(e.extra == h.extra && e.ndim == h.ndim);
    assert(e.nt3d == h.nt3d);
    assert(e.n_rigid_shells == h.n_rigid_shells);
}

/// The geometry is walked in the same way.
#[verifier::rlimit(60)]
#[verifier::spinoff_prover]
proof fn lemma_walked_same(b: Seq<u8>, c: Seq<u8>, h: ControlView, g: nat)
    requires
        same_words(b, c, g),
        h.wordsize == 4,
        h.numnp >= 0,
        walked(b, h).geom_bytes == 4 * g,
        h.nmsph > 0 ==> sph_flags(h) + 11 <= g,
    ensures
        walked(c, h) == walked(b, h),
{
    lemma_walk_order(b, h);
    let s = sph_flags(h) as int;
    if h.nmsph > 0 {
        assert forall|j: int| 0 <= j <= 10 implies word_at(c, 4, s + j) == #[trigger] word_at(
            b,
            4,
            s + j,
        ) by {
            lemma_word_same(b, c, g, s + j);
        }
        assert(word_at(c, 4, s + 0) == word_at(b, 4, s + 0));
        assert(sph_vars(c, 4, s) == sph_vars(b, 4, s));
    }
    let p = airbag_flags(b, h);
    assert(airbag_flags(c, h) == p);
    let a = with_airbags(b, h);
    if has_airbags(h) {
        lemma_word_same(b, c, g, p as int);
        lemma_word_same(b, c, g, p as int + 1);
        lemma_word_same(b, c, g, p as int + 2);
        lemma_word_same(b, c, g, p as int + 3);
    }
    assert(with_airbags(c, h) == a);
    let at = coords(b, h, a);
    assert(coords(c, h, a) == at);
    let n = numbered(h, at);
    let e = after_bodies(b, h, n);
    if has_rigid_body(h) {
        let m = count(word_at(b, 4, n as int));
        lemma_rigid_end_grows(b, 4, n + 1, m);
        lemma_word_same(b, c, g, n as int);
        lemma_rigid_end_same(b, c, g, n + 1, m);
    }
    assert(after_bodies(c, h, n) == e);
    let r = e + 2 * h.nmsph + a.n_airbags * a.n_geom_vars;
    if has_rigid_road(h) {
        let m = count(word_at(b, 4, r as int + 2));
        let k = r + 4 + 4 * count(word_at(b, 4, r as int));
        lemma_road_end_grows(b, 4, k, m);
        lemma_word_same(b, c, g, r as int);
        lemma_word_same(b, c, g, r as int + 2);
        lemma_road_end_same(b, c, g, k, m);
    }
    assert(after_roads(c, h, r) == after_roads(b, h, r));
}

/// The geometry is a whole number of words and reaches past the header.
#[verifier::rlimit(40)]
#[verifier::spinoff_prover]
proof fn lemma_geometry_words(b: Seq<u8>, h: ControlView)
    requires
        h.wordsize == 4,
        h.numnp >= 0,
    ensures
        ({
            let v = walked(b, h);
            let g = v.geom_bytes / 4;
            &&& v.geom_bytes == 4 * g
            &&& g >= sph_flags(h)
            &&& sph_flags(v) == sph_flags(h)
            &&& v.nmsph == h.nmsph
            &&& v.numnp == h.numnp
        }),
{
    lemma_walk_order(b, h);
}

/// A change past the geometry leaves the control block as it was.
#[verifier::rlimit(40)]
#[verifier::spinoff_prover]
proof fn lemma_control_same(b: Seq<u8>, c: Seq<u8>, v: ControlView)
    requires
        control_of(b) == Some(v),
        v.wordsize == 4,
        v.numnp >= 0,
        sph_within(v),
        same_words(b, c, v.geom_bytes / 4),
    ensures
        control_of(c) == Some(v),
        v.geom_bytes % 4 == 0,
{
    let h = header_of(b, 4);
    assert(word_size_of(b) == Some(4nat) && header_complete(b, 4) && v == walked(b, h)) by {
        reveal(control_of);
    }
    assert(h.wordsize == 4);
    assert(v.numnp == h.numnp);
    lemma_geometry_words(b, h);
    let g = v.geom_bytes / 4;
    assert(h.extra == count(word_at(b, 4, EXTRA as int)));
    lemma_header_same(b, c, g);
    lemma_walked_same(b, c, h, g);
    reveal(control_of);
}

/// The states of a file follow each other at equal distances.
proof fn lemma_state_steps(b: Seq<u8>, off: int, bps: nat, ws: nat)
    requires
        0 <= off,
    ensures
        forall|i: int|
            0 <= i < states_in(b, off, bps, ws).len() ==> #[trigger] states_in(b, off, bps, ws)[i]
                == off + i * bps,
    decreases b.len() - off,
{
    let all = states_in(b, off, bps, ws);
    if all.len() > 0 {
        lemma_state_steps(b, off + bps, bps, ws);
        let rest = states_in(b, off + bps, bps, ws);
        assert forall|i: int| 0 <= i < all.len() implies #[trigger] all[i] == off + i * bps by {
            if i > 0 {
                assert(all[i] == rest[i - 1]);
                assert(off + bps + (i - 1) * bps == off + i * bps) by (nonlinear_arith);
            } else {
                assert(0 * bps == 0);
            }
        }
    }
}

/// A change behind the time of a state, and within the state, changes neither the
/// number of states nor where they are.
proof fn lemma_states_same(b: Seq<u8>, c: Seq<u8>, off: int, bps: nat, k: int, at: int, len: nat)
    requires
        b.len() == c.len(),
        0 <= off,
        bps >= 4,
        off + k * bps + 4 <= at,
        at + len <= off + (k + 1) * bps,
        forall|i: int| 0 <= i < b.len() && !(at <= i < at + len) ==> #[trigger] c[i] == b[i],
    ensures
        states_in(c, off, bps, 4) == states_in(b, off, bps, 4),
        forall|i: int|
            0 <= i < states_in(b, off, bps, 4).len() ==> float_at(
                c,
                #[trigger] states_in(b, off, bps, 4)[i],
                4,
            ) == float_at(b, states_in(b, off, bps, 4)[i], 4),
    decreases b.len() - off,
{
    if off + bps <= b.len() {
        assert forall|j: int| 0 <= j < 4 implies #[trigger] c[off + j] == b[off + j] by {
            if k < 0 {
                assert((k + 1) * bps <= 0) by (nonlinear_arith)
                    requires
                        k < 0,
                ;
            } else {
                assert(k * bps >= 0) by (nonlinear_arith)
                    requires
                        k >= 0,
                ;
            }
        }
        lemma_le_at_same(c, off, b, off, 4);
        assert(float_at(c, off, 4) == float_at(b, off, 4));
        assert(off + bps + (k - 1) * bps == off + k * bps) by (nonlinear_arith);
        assert(off + bps + (k - 1 + 1) * bps == off + (k + 1) * bps) by (nonlinear_arith);
        lemma_states_same(b, c, off + bps, bps, k - 1, at, len);
        let all = states_in(b, off, bps, 4);
        let rest = states_in(b, off + bps, bps, 4);
        assert forall|i: int| 0 <= i < all.len() implies float_at(c, #[trigger] all[i], 4)
            == float_at(b, all[i], 4) by {
            if i > 0 {
                assert(all[i] == rest[i - 1]);
            }
        }
    }
}

/// The states of a family: where state `i` stands in its file, and that two
/// states of the same file do not overlap.
proof fn lemma_family_steps(files: Seq<Vec<u8>>, n: nat, v: ControlView)
    requires
        n <= files.len(),
    ensures
        forall|i: int|
            0 <= i < family_states(files, n, v).len() ==> {
                let p = #[trigger] family_states(files, n, v)[i];
                &&& 0 <= p.0 < n
                &&& exists|k: int|
                    0 <= k < file_states(files, p.0, v).len() && p.1 == #[trigger] file_states(
                        files,
                        p.0,
                        v,
                    )[k]
            },
        forall|i: int, j: int|
            0 <= i < j < family_states(files, n, v).len() ==> {
                let p = #[trigger] family_states(files, n, v)[i];
                let q = #[trigger] family_states(files, n, v)[j];
                p.0 == q.0 ==> p.1 + v.bytes_per_state() <= q.1
            },
    decreases n,
{
    if n > 0 {
        let f = n - 1;
        lemma_family_steps(files, f as nat, v);
        let bps = v.bytes_per_state();
        let start = if f == 0 {
            v.geom_bytes as int
        } else {
            0
        };
        lemma_state_steps(file_at(files, f), start, bps, v.wordsize);
        let before = family_states(files, f as nat, v);
        let offs = file_states(files, f, v);
        let all = family_states(files, n, v);
        assert forall|i: int| 0 <= i < all.len() implies {
            let p = #[trigger] all[i];
            &&& 0 <= p.0 < n
            &&& exists|k: int|
                0 <= k < file_states(files, p.0, v).len() && p.1 == #[trigger] file_states(
                    files,
                    p.0,
                    v,
                )[k]
        } by {
            if i < before.len() {
                assert(all[i] == before[i]);
            } else {
                assert(all[i] == (f, offs[i - before.len()]));
            }
        }
        assert forall|i: int, j: int| 0 <= i < j < all.len() implies {
            let p = #[trigger] all[i];
            let q = #[trigger] all[j];
            p.0 == q.0 ==> p.1 + bps <= q.1
        } by {
            if j < before.len() {
                assert(all[i] == before[i] && all[j] == before[j]);
            } else if i < before.len() {
                assert(all[i] == before[i]);
                assert(all[j] == (f, offs[j - before.len()]));
            } else {
                let x = i - before.len();
                let y = j - before.len();
                assert(all[i] == (f, offs[x]) && all[j] == (f, offs[y]));
                assert(offs[x] == start + x * bps && offs[y] == start + y * bps);
                assert(x * bps + bps <= y * bps) by (nonlinear_arith)
                    requires
                        x + 1 <= y,
                ;
            }
        }
    }
}

/// The files `g` are the files `f` with the patterns `data` from byte `at` of file
/// `k` on.
pub open spec fn edited(
    f: Seq<Vec<u8>>,
    g: Seq<Vec<u8>>,
    k: int,
    at: int,
    data: Seq<u32>,
) -> bool {
    &&& 0 <= k < f.len()
    &&& g.len() == f.len()
    &&& forall|i: int| 0 <= i < f.len() && i != k ==> #[trigger] g[i] == f[i]
    &&& file_at(g, k) == overwritten(file_at(f, k), at, single_bytes(data))
}

/// The words from `o` of state `s` on, `n` of them, lie within the state and
/// behind its time.
pub open spec fn within_state(d: D3plot, s: int, o: nat, n: nat) -> bool {
    &&& 0 <= s < d.states@.len()
    &&& 1 <= o
    &&& o + n <= d.ctrl@.state_words()
}

proof fn lemma_family_same(
    f: Seq<Vec<u8>>,
    g: Seq<Vec<u8>>,
    n: nat,
    v: ControlView,
    k: int,
    step: int,
    at: int,
    data: Seq<u32>,
)
    requires
        v.wordsize == 4,
        n <= f.len(),
        edited(f, g, k, at, data),
        v.bytes_per_state() >= 4,
        ({
            let start = if k == 0 {
                v.geom_bytes as int
            } else {
                0
            };
            &&& start + step * v.bytes_per_state() + 4 <= at
            &&& at + 4 * data.len() <= start + (step + 1) * v.bytes_per_state()
        }),
    ensures
        family_states(g, n, v) == family_states(f, n, v),
        times_at(g, family_states(f, n, v), 4) == times_at(f, family_states(f, n, v), 4),
    decreases n,
{
    if n > 0 {
        let m = n - 1;
        lemma_family_same(f, g, m as nat, v, k, step, at, data);
        let bps = v.bytes_per_state();
        let start = if m == 0 {
            v.geom_bytes as int
        } else {
            0
        };
        let b = file_at(f, m);
        let c = file_at(g, m);
        let offs = file_states(f, m, v);
        if m == k {
            assert forall|i: int| 0 <= i < b.len() && !(at <= i < at + 4 * data.len()) implies
                #[trigger] c[i] == b[i] by {}
            lemma_states_same(b, c, start, bps, step, at, 4 * data.len());
        } else {
            assert(g[m] == f[m]);
        }
        assert(file_states(g, m, v) == offs);
        let before = family_states(f, m as nat, v);
        let all = family_states(f, n, v);
        assert(family_states(g, n, v) == all);
        let x = times_at(g, all, 4);
        let y = times_at(f, all, 4);
        assert forall|i: int| 0 <= i < all.len() implies #[trigger] x[i] == y[i] by {
            if i < before.len() {
                assert(all[i] == before[i]);
                assert(times_at(g, before, 4)[i] == times_at(f, before, 4)[i]);
            } else {
                let j = i - before.len();
                assert(all[i] == (m, offs[j]));
                assert(offs[j] == states_in(b, start, bps, 4)[j]);
            }
        }
        assert(x =~= y);
    } else {
        assert(times_at(g, family_states(f, n, v), 4) =~= times_at(f, family_states(f, n, v), 4));
    }
}

/// Overwriting words of a state behind its time leaves the control block, the
/// places of the states and their times as they were.
#[verifier::spinoff_prover]
pub proof fn law_edit_keeps_index(d: D3plot, g: Seq<Vec<u8>>, s: int, o: nat, data: Seq<u32>)
    requires
        d.wf(),
        d.ctrl@.wordsize == 4,
        sph_within(d.ctrl@),
        within_state(d, s, o, data.len()),
        edited(
            d.files@,
            g,
            d.states@[s].file as int,
            d.states@[s].offset + 4 * o,
            data,
        ),
    ensures
        control_of(file_at(g, 0)) == Some(d.ctrl@),
        family_states(g, g.len(), d.ctrl@) == places(d.states@),
        times_at(g, places(d.states@), 4) == d.times@,
        file_at(g, 0).len() == file_at(d.files@, 0).len(),
        floats_at(file_at(g, 0), d.ctrl@.coord_off as int, 3 * d.ctrl.numnp as nat, 4) == d.x0@,
{
    let v = d.ctrl@;
    let f = d.files@;
    let k = d.states@[s].file as int;
    let at = d.states@[s].offset + 4 * o;
    let bps = v.bytes_per_state();
    let sw = v.state_words();
    lemma_within(o, data.len(), sw, 4);
    d.lemma_place(s);
    lemma_family_steps(f, f.len(), v);
    let p = places(d.states@);
    assert(p[s] == (k, d.states@[s].offset as int));
    let offs = file_states(f, k, v);
    let start = if k == 0 {
        v.geom_bytes as int
    } else {
        0
    };
    let step = choose|i: int| 0 <= i < offs.len() && p[s].1 == #[trigger] offs[i];
    lemma_state_steps(file_at(f, k), start, bps, 4);
    assert(offs[step] == start + step * bps);
    assert((step + 1) * bps == step * bps + bps) by (nonlinear_arith);
    assert(step * bps >= 0) by (nonlinear_arith)
        requires
            step >= 0,
    ;
    assert(bps == sw * 4);
    lemma_family_same(f, g, f.len(), v, k, step, at, data);
    let b = file_at(f, 0);
    let c = file_at(g, 0);
    if k == 0 {
        assert forall|i: int| 0 <= i < b.len() && i < 4 * (v.geom_bytes / 4) implies
            #[trigger] c[i] == b[i] by {}
        lemma_control_same(b, c, v);
        let n = 3 * d.ctrl.numnp as nat;
        let m = 3 * v.numnp + v.connectivity_words() + v.narbs;
        assert(n <= m);
        assert(v.coord_off + 4 * n <= v.geom_bytes);
        law_overwritten_keeps_rest(b, at, data, v.coord_off as int, n);
    } else {
        assert(g[0] == f[0]);
    }
}

/// After an edit, what was written is read back, widened to doubles; all other
/// words of all states read as before, and so do the times and the initial
/// coordinates.
#[verifier::spinoff_prover]
pub proof fn law_edit_reads_back(d: D3plot, e: D3plot, s: int, o: nat, data: Seq<u32>)
    requires
        d.wf(),
        e.wf(),
        d.ctrl@.wordsize == 4,
        sph_within(d.ctrl@),
        within_state(d, s, o, data.len()),
        edited(
            d.files@,
            e.files@,
            d.states@[s].file as int,
            d.states@[s].offset + 4 * o,
            data,
        ),
    ensures
        e.ctrl@ == d.ctrl@,
        e.states@.len() == d.states@.len(),
        e.times@ == d.times@,
        e.x0@ == d.x0@,
        e.state_floats(s, o, data.len()) == Seq::new(data.len(), |i: int| widened(data[i]) as u64),
        forall|t: int, off: nat, n: nat|
            0 <= t < d.states@.len() && off + n <= d.ctrl@.state_words() && (t != s || off + n <= o
                || o + data.len() <= off) ==> #[trigger] e.state_floats(t, off, n)
                == d.state_floats(t, off, n),
{
    let v = d.ctrl@;
    law_edit_keeps_index(d, e.files@, s, o, data);
    assert(e.ctrl@ == v);
    let p = places(d.states@);
    let q = places(e.states@);
    assert(p == q);
    assert(p.len() == d.states@.len() && q.len() == e.states@.len());
    let k = d.states@[s].file as int;
    let at = d.states@[s].offset + 4 * o;
    lemma_within(o, data.len(), v.state_words(), 4);
    d.lemma_place(s);
    let b = file_at(d.files@, k);
    assert(p[s] == (k, d.states@[s].offset as int));
    assert(q[s] == (e.states@[s].file as int, e.states@[s].offset as int));
    law_overwritten_reads_back(b, at, data);
    assert(e.states@[s].offset + o * 4 == at);
    lemma_family_steps(d.files@, d.files@.len(), v);
    let bps = v.bytes_per_state();
    assert forall|t: int, off: nat, n: nat|
        0 <= t < d.states@.len() && off + n <= v.state_words() && (t != s || off + n <= o || o
            + data.len() <= off) implies #[trigger] e.state_floats(t, off, n) == d.state_floats(
        t,
        off,
        n,
    ) by {
        d.lemma_place(t);
        assert(p[t] == (d.states@[t].file as int, d.states@[t].offset as int));
        assert(q[t] == (e.states@[t].file as int, e.states@[t].offset as int));
        lemma_within(off, n, v.state_words(), 4);
        let z = d.states@[t].offset + off * 4;
        if d.states@[t].file as int == k {
            if t < s {
                assert(p[t].1 + bps <= p[s].1);
            } else if s < t {
                assert(p[s].1 + bps <= p[t].1);
            }
            law_overwritten_keeps_rest(b, at, data, z, n);
        } else {
            assert(e.files@[d.states@[t].file as int] == d.files@[d.states@[t].file as int]);
        }
    }
}

} // verus!
