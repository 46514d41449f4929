//! What a reader makes of a written database, part two: the states.

use crate::d3plot::control::lemma_state_terms;
use crate::d3plot::image::{
    covers, lemma_share, of_state, opt_words, result_words, results_cover, width_of, ALIVE, EOF_MARKER,
};
use crate::d3plot::layout::{
    law_written_control, lemma_holds_split, lemma_image_holds, lemma_mesh_len, lemma_parts_bound,
    lemma_sections, lemma_vec_lens,
};
use crate::d3plot::reader::{family_states, file_at, index_error, places, states_in, D3plot};
use crate::d3plot::validate::law_valid_is_complete;
use crate::d3plot::words::{
    float_at, floats, holds_at, lemma_holds_part, lemma_read_float, lemma_read_floats, stored,
    stored_all, Word,
};
use crate::d3plot::writer::{D3plotWriter, Deletion};
use crate::d3plot::StateBlock;
use vstd::prelude::*;

verus! {

pub proof fn lemma_opt_len(d: Option<Vec<u64>>, si: int, ns: nat, per: nat, v: u64)
    requires
        0 <= si < ns,
        covers(d, ns, per),
    ensures
        opt_words(d, si, per, v).len() == per,
{
    if let Some(x) = d {
        lemma_share(si, ns, per, x@.len());
    }
}

proof fn lemma_result_len(r: Option<(usize, Vec<u64>)>, si: int, ns: nat, count: nat)
    requires
        0 <= si < ns,
        results_cover(r, ns, count),
    ensures
        result_words(r, si, count).len() == count * width_of(r),
{
    if let Some(x) = r {
        lemma_share(si, ns, x.0 as nat * count, x.1@.len());
        assert(x.0 as nat * count == count * x.0 as nat) by (nonlinear_arith);
    } else {
        assert(count * 0 == 0);
    }
}

/// The global variables of a state have the length that the header states.
pub proof fn lemma_global_len(w: D3plotWriter, si: int)
    requires
        w.wf(),
        w.complete(),
        0 <= si < w.n_states(),
    ensures
        w.global_words(si).len() == w.n_globals(),
        w.scalar_words(si).len() == 6,
        w.part_words(si).len() == 7 * w.n_parts(),
        w.wall_state_words(si).len() == w.wall_words(),
{
    let ns = w.n_states();
    let np = w.n_parts();
    let p = w.globals.parts;
    lemma_opt_len(p.internal_energy, si, ns, np, 0);
    lemma_opt_len(p.kinetic_energy, si, ns, np, 0);
    lemma_opt_len(p.velocity, si, ns, 3 * np, 0);
    lemma_opt_len(p.mass, si, ns, np, 0);
    lemma_opt_len(p.hourglass_energy, si, ns, np, 0);
    if let Some(x) = w.globals.rigid_wall {
        lemma_share(si, ns, x.n_walls as nat, x.force@.len());
        if let Some(q) = x.position {
            lemma_share(si, ns, 3 * x.n_walls as nat, q@.len());
        }
    }
}

/// The auxiliary node fields of a state have the length that the flags state.
pub proof fn lemma_thermal_len(w: D3plotWriter, si: int)
    requires
        w.wf(),
        w.complete(),
        0 <= si < w.n_states(),
    ensures
        w.thermal_words(si).len() == w.layout().node_therm_vars() * (w.numnp as nat),
{
    let ns = w.n_states();
    let n = w.numnp as nat;
    let t = w.node_thermal;
    lemma_opt_len(t.temperature, si, ns, w.temp_vars() * n, 0);
    lemma_opt_len(t.heat_flux, si, ns, 3 * n, 0);
    lemma_opt_len(t.mass_scaling, si, ns, n, 0);
    lemma_opt_len(t.temp_gradient, si, ns, n, 0);
    lemma_opt_len(t.residual_force, si, ns, 3 * n, 0);
    lemma_opt_len(t.residual_moment, si, ns, 3 * n, 0);
    lemma_flags_decode(w);
    let temp = w.temp_vars();
    let flux: nat = if w.it_ones() >= 2 {
        3
    } else {
        0
    };
    let mass: nat = if t.mass_scaling is Some {
        1
    } else {
        0
    };
    let grad: nat = if t.temp_gradient is Some {
        1
    } else {
        0
    };
    let res: nat = if w.has_residual() {
        6
    } else {
        0
    };
    assert((temp + flux + mass + grad + res) * n == temp * n + flux * n + mass * n + grad * n + res
        * n) by (nonlinear_arith);
    assert(0 * n == 0 && 1 * n == n);
}

/// The flags IT and IDTDT decode to what they were made of.
pub proof fn lemma_flags_decode(w: D3plotWriter)
    ensures
        w.layout().it % 10 == w.it_ones(),
        (w.layout().it / 10) % 10 == (if w.node_thermal.mass_scaling is Some {
            1int
        } else {
            0int
        }),
        w.layout().idtdt % 10 == (if w.node_thermal.temp_gradient is Some {
            1int
        } else {
            0int
        }),
        (w.layout().idtdt / 10) % 10 == (if w.has_residual() {
            1int
        } else {
            0int
        }),
        w.layout().node_therm_vars() == w.temp_vars() + (if w.it_ones() >= 2 {
            3nat
        } else {
            0nat
        }) + (if w.node_thermal.mass_scaling is Some {
            1nat
        } else {
            0nat
        }) + (if w.node_thermal.temp_gradient is Some {
            1nat
        } else {
            0nat
        }) + (if w.has_residual() {
            6nat
        } else {
            0nat
        }),
{
}

proof fn lemma_node_len(w: D3plotWriter, si: int)
    requires
        w.wf(),
        w.complete(),
        0 <= si < w.n_states(),
    ensures
        w.node_words(si).len() == w.layout().node_data_words(),
        w.layout().node_data_words() == 3 * w.numnp + w.layout().node_therm_vars() * (
        w.numnp as nat) + w.layout().vector_words(w.layout().iv) + w.layout().vector_words(
            w.layout().ia,
        ),
{
    lemma_thermal_len(w, si);
    let v = w.layout();
    let n = w.numnp as nat;
    let t = v.node_therm_vars();
    let b = crate::d3plot::control::flag(v.iv != 0);
    let c = crate::d3plot::control::flag(v.ia != 0);
    assert((3 * (1 + b + c) + t) * n == 3 * n + 3 * b * n + 3 * c * n + t * n) by (nonlinear_arith);
    assert(3 * b * n == (if b == 1 {
        3 * n
    } else {
        0
    }) && 3 * c * n == (if c == 1 {
        3 * n
    } else {
        0
    })) by (nonlinear_arith)
        requires
            b == 0 || b == 1,
            c == 0 || c == 1,
    ;
}

proof fn lemma_element_len(w: D3plotWriter, si: int)
    requires
        w.wf(),
        w.complete(),
        0 <= si < w.n_states(),
    ensures
        w.element_words(si).len() == w.layout().element_words(),
{
    let ns = w.n_states();
    lemma_result_len(w.solid_results, si, ns, w.solids@.len());
    lemma_result_len(w.tshell_results, si, ns, w.tshells@.len());
    lemma_result_len(w.beam_results, si, ns, w.beams@.len());
    lemma_result_len(w.shell_results, si, ns, w.shells@.len());
}

/// The deletion mode is read back.
pub proof fn lemma_mdlopt(w: D3plotWriter)
    requires
        w.recoverable(),
    ensures
        w.layout().mdlopt() == (match w.deletion {
            None => 0int,
            Some(Deletion::Node(_)) => 1int,
            Some(Deletion::Element { .. }) => 2int,
        }),
        w.layout().n_shell_layers() == w.shell_layers,
{
    match w.deletion {
        None => {
            crate::d3plot::layout::lemma_wrap_small(w.shell_layers as int);
        },
        Some(Deletion::Node(_)) => {
            crate::d3plot::layout::lemma_wrap_small(w.shell_layers as int);
        },
        Some(Deletion::Element { .. }) => {
            crate::d3plot::layout::lemma_wrap_small(w.shell_layers + 10000);
        },
    }
}

proof fn lemma_deletion_len(w: D3plotWriter, si: int)
    requires
        w.recoverable(),
        w.complete(),
        0 <= si < w.n_states(),
    ensures
        w.deletion_state_words(si).len() == w.layout().deletion_words(),
{
    lemma_mdlopt(w);
    let ns = w.n_states();
    match w.deletion {
        None => {},
        Some(Deletion::Node(d)) => {
            lemma_share(si, ns, w.numnp as nat, d@.len());
        },
        Some(Deletion::Element { solid, tshell, shell, beam }) => {
            lemma_opt_len(solid, si, ns, w.solids@.len(), ALIVE);
            lemma_opt_len(tshell, si, ns, w.tshells@.len(), ALIVE);
            lemma_opt_len(shell, si, ns, w.shells@.len(), ALIVE);
            lemma_opt_len(beam, si, ns, w.beams@.len(), ALIVE);
        },
    }
}

pub proof fn lemma_tail_len(w: D3plotWriter, si: int)
    requires
        w.wf(),
        w.complete(),
        0 <= si < w.n_states(),
    ensures
        w.sph_state_words(si).len() == w.layout().sph_words(),
        w.airbag_state_words(si).len() == w.layout().airbag_words(),
        w.road_state_words(si).len() == 6 * w.layout().n_roads,
        w.body_state_words(si).len() == w.layout().rigid_words(),
{
    let ns = w.n_states();
    let v = w.layout();
    if let Some(s) = w.sph {
        lemma_share(si, ns, s.materials@.len() * (s.n_vars as nat), s.results@.len());
        if s.materials@.len() == 0 {
            assert(0 * (s.n_vars as nat) == 0 && 0 * v.n_sph_vars == 0);
        }
    } else {
        assert(0 * v.n_sph_vars == 0);
    }
    if let Some(a) = w.airbag {
        lemma_share(si, ns, a.n_airbags as nat * a.n_airbag_vars as nat, a.airbag_state@.len());
        lemma_share(
            si,
            ns,
            a.n_particles as nat * a.n_particle_vars as nat,
            a.particle_state@.len(),
        );
    } else {
        assert(0 * v.n_airbag_state_vars == 0 && 0 * v.n_particle_state_vars == 0);
    }
    if let Some(r) = w.rigid_road {
        lemma_share(si, ns, 6 * r.segments@.len(), r.motion@.len());
    }
    if let Some(b) = w.rigid_bodies {
        lemma_share(si, ns, w.rigid_width() * b.bodies@.len(), b.motion@.len());
        assert(w.rigid_width() * b.bodies@.len() == b.bodies@.len() * w.rigid_width())
            by (nonlinear_arith);
        assert(w.rigid_width() == v.rigid_vars());
    } else {
        assert(0 * v.rigid_vars() == 0);
    }
}

/// Every written state has the size that the control block states.
pub proof fn lemma_state_len(w: D3plotWriter, si: int)
    requires
        w.recoverable(),
        0 <= si < w.n_states(),
    ensures
        w.state_words(si).len() == w.layout().state_words(),
{
    law_valid_is_complete(w);
    lemma_global_len(w, si);
    lemma_node_len(w, si);
    lemma_element_len(w, si);
    lemma_deletion_len(w, si);
    lemma_tail_len(w, si);
    let v = w.layout();
    let t = v.nt3d;
    let e = v.nel8;
    assert(t * e == 0) by (nonlinear_arith)
        requires
            t == 0,
    ;
}

proof fn lemma_states_len(w: D3plotWriter, n: nat)
    requires
        w.recoverable(),
        n <= w.n_states(),
    ensures
        w.states_words(n).len() == n * w.layout().state_words(),
    decreases n,
{
    let sw = w.layout().state_words();
    if n > 0 {
        lemma_states_len(w, (n - 1) as nat);
        lemma_state_len(w, n - 1);
        assert(n * sw == (n - 1) * sw + sw) by (nonlinear_arith);
    } else {
        assert(0 * sw == 0);
    }
}

/// State `si` of the first `n` stands behind the states before it.
proof fn lemma_state_place(w: D3plotWriter, b: Seq<u8>, ws: nat, k: int, n: nat, si: int)
    requires
        w.recoverable(),
        0 <= si < n <= w.n_states(),
        holds_at(b, ws, k, w.states_words(n)),
    ensures
        holds_at(b, ws, k + si * w.layout().state_words(), w.state_words(si)),
    decreases n,
{
    let m = (n - 1) as nat;
    lemma_states_len(w, m);
    lemma_holds_split(b, ws, k, w.states_words(m), w.state_words(n - 1));
    if si < n - 1 {
        lemma_state_place(w, b, ws, k, m, si);
    }
}

/// The sizes of a written database can be addressed.
#[verifier::rlimit(60)]
#[verifier::spinoff_prover]
pub proof fn law_written_fits(w: D3plotWriter)
    requires
        w.recoverable(),
    ensures
        w.layout().fits(),
        w.image().len() == w.layout().geom_bytes + w.n_states() * w.layout().bytes_per_state()
            + w.wordsize,
        w.layout().coord_off + 3 * w.numnp * w.wordsize <= w.image().len(),
{
    let v = w.layout();
    let ws = w.wordsize as nat;
    lemma_image_holds(w);
    lemma_mesh_len(w);
    lemma_parts_bound(w);
    lemma_vec_lens(w);
    lemma_mdlopt(w);
    lemma_states_len(w, w.n_states());
    let g = w.geometry_len();
    let ns = w.n_states();
    let sw = v.state_words();
    assert((g + ns * sw + 1) * ws == g * ws + ns * (sw * ws) + ws) by (nonlinear_arith);
    assert(ns * (sw * ws) >= 0) by (nonlinear_arith);
    let c = w.coord_words();
    let m = (3 * w.numnp + v.connectivity_words() + v.narbs) as nat;
    assert(c + m <= g);
    assert(c * ws + m * ws <= g * ws) by (nonlinear_arith)
        requires
            c + m <= g,
    ;
    let n3 = 3 * w.numnp as nat;
    assert(n3 * ws <= m * ws) by (nonlinear_arith)
        requires
            n3 <= m,
    ;
    let spl = w.shell_per_layer();
    assert(spl <= width_of(w.shell_results)) by (nonlinear_arith)
        requires
            spl == width_of(w.shell_results) / (w.shell_layers as nat),
            w.shell_layers >= 1,
    ;
}

/// No state has a time that reads as the end marker.
pub open spec fn times_readable(w: D3plotWriter) -> bool {
    forall|i: int|
        0 <= i < w.n_states() ==> stored((#[trigger] w.states@[i]).time, w.wordsize as nat)
            != EOF_MARKER
}

/// The first word of state `si` is its time.
proof fn lemma_time_at(w: D3plotWriter, si: int)
    requires
        w.recoverable(),
        0 <= si < w.n_states(),
    ensures
        float_at(
            w.image(),
            w.layout().geom_bytes + si * w.layout().bytes_per_state(),
            w.wordsize as nat,
        ) == stored(w.states@[si].time, w.wordsize as nat),
{
    let b = w.image();
    let ws = w.wordsize as nat;
    let g = w.geometry_len() as int;
    let sw = w.layout().state_words();
    lemma_image_holds(w);
    lemma_sections(w, b);
    lemma_state_place(w, b, ws, g, w.n_states(), si);
    lemma_read_float(b, ws, g + si * sw, w.state_words(si), 0);
    assert((g + si * sw + 0) * ws == g * ws + si * (sw * ws)) by (nonlinear_arith);
}

proof fn lemma_states_in_image(w: D3plotWriter, i: int)
    requires
        w.recoverable(),
        times_readable(w),
        0 <= i <= w.n_states(),
    ensures
        ({
            let v = w.layout();
            let at = v.geom_bytes + i * v.bytes_per_state();
            states_in(w.image(), at, v.bytes_per_state(), v.wordsize) == Seq::new(
                (w.n_states() - i) as nat,
                |j: int| v.geom_bytes + (i + j) * v.bytes_per_state(),
            )
        }),
    decreases w.n_states() - i,
{
    let v = w.layout();
    let b = w.image();
    let ws = w.wordsize as nat;
    let bps = v.bytes_per_state();
    let ns = w.n_states();
    let at = v.geom_bytes + i * bps;
    law_written_fits(w);
    lemma_state_terms(v);
    let sw = v.state_words();
    assert(sw * ws >= 4 * ws) by (nonlinear_arith)
        requires
            sw >= 4,
    ;
    assert(i * bps >= 0) by (nonlinear_arith)
        requires
            i >= 0,
    ;
    let all = Seq::new((ns - i) as nat, |j: int| v.geom_bytes + (i + j) * bps);
    if i < ns {
        lemma_time_at(w, i);
        assert(w.states@[i].time == w.states@[i].time);
        assert((i + 1) * bps == i * bps + bps && (i + 1) * bps <= ns * bps) by (nonlinear_arith)
            requires
                i + 1 <= ns,
        ;
        lemma_states_in_image(w, i + 1);
        let rest = states_in(b, at + bps, bps, ws);
        assert(states_in(b, at, bps, ws) == seq![at] + rest);
        assert forall|j: int| 0 <= j < all.len() implies all[j] == (seq![at] + rest)[j] by {
            if j > 0 {
                assert(rest[j - 1] == v.geom_bytes + (i + 1 + (j - 1)) * bps);
            }
        }
        assert(all =~= seq![at] + rest);
    } else {
        assert(all =~= Seq::<int>::empty());
    }
}

/// The family made of the one written file has the states that were written, one
/// behind the other after the geometry.
pub proof fn law_written_states(w: D3plotWriter, files: Seq<Vec<u8>>)
    requires
        w.recoverable(),
        times_readable(w),
        files.len() == 1,
        file_at(files, 0) == w.image(),
    ensures
        index_error(file_at(files, 0)) is None,
        family_states(files, 1, w.layout()) == Seq::new(
            w.n_states(),
            |i: int| (0int, w.layout().geom_bytes + i * w.layout().bytes_per_state()),
        ),
{
    law_written_control(w);
    law_written_fits(w);
    lemma_states_in_image(w, 0);
    let v = w.layout();
    assert(0 * v.bytes_per_state() == 0);
    reveal_with_fuel(family_states, 2);
    assert(family_states(files, 0, v) =~= Seq::<(int, int)>::empty());
    assert(family_states(files, 1, v) =~= Seq::new(
        w.n_states(),
        |i: int| (0int, v.geom_bytes + i * v.bytes_per_state()),
    ));
}

/// `d` is the database read from the bytes that `w` gives.
pub open spec fn reads(d: D3plot, w: D3plotWriter) -> bool {
    &&& d.wf()
    &&& d.files@.len() == 1
    &&& file_at(d.files@, 0) == w.image()
}

/// The reader finds the layout, the states and their times.
pub proof fn law_reader_finds_states(d: D3plot, w: D3plotWriter)
    requires
        w.recoverable(),
        times_readable(w),
        reads(d, w),
    ensures
        d.ctrl@ == w.layout(),
        d.states@.len() == w.n_states(),
        forall|i: int|
            0 <= i < w.n_states() ==> (#[trigger] d.states@[i]).file == 0 && d.states@[i].offset
                == w.layout().geom_bytes + i * w.layout().bytes_per_state(),
        forall|i: int|
            0 <= i < w.n_states() ==> #[trigger] d.times@[i] == stored(
                w.states@[i].time,
                w.wordsize as nat,
            ),
        d.x0@ == stored_all(w.x0@, w.wordsize as nat),
{
    law_written_control(w);
    law_written_states(w, d.files@);
    let v = w.layout();
    let p = places(d.states@);
    assert(p == family_states(d.files@, 1, v));
    assert(p.len() == d.states@.len());
    assert forall|i: int| 0 <= i < w.n_states() implies (#[trigger] d.states@[i]).file == 0
        && d.states@[i].offset == v.geom_bytes + i * v.bytes_per_state() by {
        assert(p[i] == (d.states@[i].file as int, d.states@[i].offset as int));
    }
    assert forall|i: int| 0 <= i < w.n_states() implies #[trigger] d.times@[i] == stored(
        w.states@[i].time,
        w.wordsize as nat,
    ) by {
        lemma_time_at(w, i);
        assert(p[i] == (0int, v.geom_bytes + i * v.bytes_per_state()));
    }
    let b = w.image();
    let ws = w.wordsize as nat;
    lemma_image_holds(w);
    lemma_sections(w, b);
    let k = w.coord_words() as int;
    let s = w.mesh_words();
    assert(s.subrange(0, 0 + floats(w.x0@).len() as int) =~= floats(w.x0@));
    lemma_holds_part(b, ws, k, s, 0, floats(w.x0@));
    lemma_read_floats(b, ws, k, w.x0@);
}

/// A run of doubles held in a state is what the reader gets there.
pub proof fn lemma_read_section(d: D3plot, w: D3plotWriter, si: int, off: nat, x: Seq<u64>)
    requires
        w.recoverable(),
        times_readable(w),
        reads(d, w),
        0 <= si < w.n_states(),
        holds_at(
            w.image(),
            w.wordsize as nat,
            w.geometry_len() + si * w.layout().state_words() + off,
            floats(x),
        ),
    ensures
        d.state_floats(si, off, x.len()) == stored_all(x, w.wordsize as nat),
{
    law_reader_finds_states(d, w);
    let ws = w.wordsize as nat;
    let g = w.geometry_len() as int;
    let sw = w.layout().state_words();
    let k = g + si * sw + off;
    lemma_read_floats(w.image(), ws, k, x);
    assert(k * ws == g * ws + si * (sw * ws) + off * ws) by (nonlinear_arith)
        requires
            k == g + si * sw + off,
    ;
    assert(d.states@[si].file == 0);
}

/// The sections of state `si` stand where the layout says.
#[verifier::rlimit(60)]
#[verifier::spinoff_prover]
pub proof fn lemma_state_sections(w: D3plotWriter, si: int)
    requires
        w.recoverable(),
        0 <= si < w.n_states(),
    ensures
        ({
            let b = w.image();
            let ws = w.wordsize as nat;
            let v = w.layout();
            let k = w.geometry_len() + si * v.state_words();
            &&& holds_at(b, ws, k + 1, w.global_words(si))
            &&& holds_at(b, ws, k + 1 + v.nglbv, w.node_words(si))
            &&& holds_at(b, ws, k + 1 + v.nglbv + v.node_data_words(), w.element_words(si))
            &&& holds_at(b, ws, k + v.deletion_off(), w.deletion_state_words(si))
            &&& holds_at(b, ws, k + v.sph_off(), w.sph_state_words(si))
            &&& holds_at(b, ws, k + v.airbag_off(), w.airbag_state_words(si))
            &&& holds_at(b, ws, k + v.road_off(), w.road_state_words(si))
            &&& holds_at(b, ws, k + v.rigid_off(), w.body_state_words(si))
        }),
{
    let b = w.image();
    let ws = w.wordsize as nat;
    let v = w.layout();
    let g = w.geometry_len() as int;
    let k = g + si * v.state_words();
    lemma_image_holds(w);
    lemma_sections(w, b);
    lemma_state_place(w, b, ws, g, w.n_states(), si);
    law_valid_is_complete(w);
    lemma_global_len(w, si);
    lemma_node_len(w, si);
    lemma_element_len(w, si);
    lemma_deletion_len(w, si);
    lemma_tail_len(w, si);
    let t = v.nt3d;
    let e = v.nel8;
    assert(t * e == 0) by (nonlinear_arith)
        requires
            t == 0,
    ;
    let s0 = seq![Word::Float(w.states@[si].time)];
    let s1 = w.global_words(si);
    let s2 = w.node_words(si);
    let s3 = w.element_words(si);
    let s4 = w.deletion_state_words(si);
    let s5 = w.sph_state_words(si);
    let s6 = w.airbag_state_words(si);
    let s7 = w.road_state_words(si);
    let s8 = w.body_state_words(si);
    lemma_holds_split(b, ws, k, s0 + s1 + s2 + s3 + s4 + s5 + s6 + s7, s8);
    lemma_holds_split(b, ws, k, s0 + s1 + s2 + s3 + s4 + s5 + s6, s7);
    lemma_holds_split(b, ws, k, s0 + s1 + s2 + s3 + s4 + s5, s6);
    lemma_holds_split(b, ws, k, s0 + s1 + s2 + s3 + s4, s5);
    lemma_holds_split(b, ws, k, s0 + s1 + s2 + s3, s4);
    lemma_holds_split(b, ws, k, s0 + s1 + s2, s3);
    lemma_holds_split(b, ws, k, s0 + s1, s2);
    lemma_holds_split(b, ws, k, s0, s1);
}

/// Deformed coordinates, velocities and accelerations come back as they were
/// written, to the precision of the file.
#[verifier::rlimit(60)]
#[verifier::spinoff_prover]
pub proof fn law_motion_reads_back(d: D3plot, w: D3plotWriter, si: int)
    requires
        w.recoverable(),
        times_readable(w),
        reads(d, w),
        0 <= si < w.n_states(),
    ensures
        ({
            let v = w.layout();
            let ws = w.wordsize as nat;
            let st = w.states@[si];
            let n = 3 * w.numnp as nat;
            &&& v.block_place(StateBlock::Displacement).0 == 1 + v.nglbv
            &&& d.state_floats(si, 1 + v.nglbv, n) == stored_all(st.disp@, ws)
            &&& v.has_block(StateBlock::Displacement)
            &&& (v.has_block(StateBlock::Velocity) <==> w.fields.velocity)
            &&& (v.has_block(StateBlock::Acceleration) <==> w.fields.acceleration)
            &&& w.fields.velocity ==> d.state_floats(
                si,
                v.block_place(StateBlock::Velocity).0,
                n,
            ) == stored_all(st.vel@, ws)
            &&& w.fields.acceleration ==> d.state_floats(
                si,
                v.block_place(StateBlock::Acceleration).0,
                n,
            ) == stored_all(st.acc@, ws)
        }),
{
    lemma_state_sections(w, si);
    law_valid_is_complete(w);
    lemma_thermal_len(w, si);
    let v = w.layout();
    let b = w.image();
    let ws = w.wordsize as nat;
    let st = w.states@[si];
    let k = w.geometry_len() + si * v.state_words() + 1 + v.nglbv;
    let s0 = floats(st.disp@);
    let s1 = w.thermal_words(si);
    let s2 = floats(st.vel@);
    let s3 = floats(st.acc@);
    lemma_holds_split(b, ws, k, s0 + s1 + s2, s3);
    lemma_holds_split(b, ws, k, s0 + s1, s2);
    lemma_holds_split(b, ws, k, s0, s1);
    assert(st.disp@.len() == 3 * w.numnp);
    lemma_read_section(d, w, si, 1 + v.nglbv, st.disp@);
    if w.fields.velocity {
        lemma_read_section(d, w, si, v.block_place(StateBlock::Velocity).0, st.vel@);
    }
    if w.fields.acceleration {
        lemma_read_section(d, w, si, v.block_place(StateBlock::Acceleration).0, st.acc@);
    }
}

/// The results that were set for a family of elements.
pub open spec fn results_of(w: D3plotWriter, block: StateBlock) -> Option<(usize, Vec<u64>)> {
    match block {
        StateBlock::Solid => w.solid_results,
        StateBlock::ThickShell => w.tshell_results,
        StateBlock::Beam => w.beam_results,
        StateBlock::Shell => w.shell_results,
        _ => None,
    }
}

/// The number of elements of a family.
pub open spec fn elements_of(w: D3plotWriter, block: StateBlock) -> nat {
    match block {
        StateBlock::Solid => w.solids@.len(),
        StateBlock::ThickShell => w.tshells@.len(),
        StateBlock::Beam => w.beams@.len(),
        StateBlock::Shell => w.shells@.len(),
        _ => 0,
    }
}

/// Element results of a state come back as they were written, to the precision of
/// the file.
#[verifier::rlimit(60)]
#[verifier::spinoff_prover]
pub proof fn law_element_state_reads_back(d: D3plot, w: D3plotWriter, block: StateBlock, si: int)
    requires
        w.recoverable(),
        times_readable(w),
        reads(d, w),
        0 <= si < w.n_states(),
        results_of(w, block) is Some,
    ensures
        ({
            let v = w.layout();
            let p = v.block_place(block);
            let r = results_of(w, block)->0;
            &&& p.1 == elements_of(w, block)
            &&& p.2 == r.0
            &&& (v.has_block(block) <==> p.1 > 0 && p.2 > 0)
            &&& d.state_floats(si, p.0, p.1 * p.2) == stored_all(
                of_state(r.1@, si, p.1 * p.2),
                w.wordsize as nat,
            )
        }),
{
    lemma_state_sections(w, si);
    law_valid_is_complete(w);
    let ns = w.n_states();
    let v = w.layout();
    let b = w.image();
    let ws = w.wordsize as nat;
    let k = w.geometry_len() + si * v.state_words() + 1 + v.nglbv + v.node_data_words();
    lemma_result_len(w.solid_results, si, ns, w.solids@.len());
    lemma_result_len(w.tshell_results, si, ns, w.tshells@.len());
    lemma_result_len(w.beam_results, si, ns, w.beams@.len());
    lemma_result_len(w.shell_results, si, ns, w.shells@.len());
    let s0 = result_words(w.solid_results, si, w.solids@.len());
    let s1 = result_words(w.tshell_results, si, w.tshells@.len());
    let s2 = result_words(w.beam_results, si, w.beams@.len());
    let s3 = result_words(w.shell_results, si, w.shells@.len());
    lemma_holds_split(b, ws, k, s0 + s1 + s2, s3);
    lemma_holds_split(b, ws, k, s0 + s1, s2);
    lemma_holds_split(b, ws, k, s0, s1);
    let t = v.nt3d;
    let e = v.nel8;
    assert(t * e == 0) by (nonlinear_arith)
        requires
            t == 0,
    ;
    let p = v.block_place(block);
    let r = results_of(w, block)->0;
    let x = of_state(r.1@, si, r.0 as nat * p.1);
    assert(r.0 as nat * p.1 == p.1 * p.2) by (nonlinear_arith)
        requires
            r.0 as nat == p.2,
    ;
    lemma_share(si, ns, r.0 as nat * p.1, r.1@.len());
    lemma_read_section(d, w, si, p.0, x);
}

/// All the states of an array, read one after the other, are the array.
proof fn lemma_gather_all(d: D3plot, data: Seq<u64>, off: nat, per: nat, ws: nat, n: nat)
    requires
        n <= d.states@.len(),
        data.len() >= n * per,
        d.states@.len() <= usize::MAX,
        forall|s: int|
            0 <= s < n ==> #[trigger] d.state_floats(s, off, per) == stored_all(
                of_state(data, s, per),
                ws,
            ),
    ensures
        d.gather(d.every_state().take(n as int), off, per) == stored_all(
            data.take((n * per) as int),
            ws,
        ),
    decreases n,
{
    let sel = d.every_state().take(n as int);
    if n > 0 {
        let m = (n - 1) as nat;
        assert(n * per == m * per + per) by (nonlinear_arith)
            requires
                n == m + 1,
        ;
        assert(0 <= m * per) by (nonlinear_arith);
        lemma_gather_all(d, data, off, per, ws, m);
        assert(sel.drop_last() =~= d.every_state().take(m as int));
        assert(sel.last() == m as usize);
        let a = stored_all(data.take((m * per) as int), ws);
        let c = stored_all(of_state(data, m as int, per), ws);
        let whole = stored_all(data.take((n * per) as int), ws);
        assert(d.state_floats(m as int, off, per) == c);
        assert(of_state(data, m as int, per).len() == per);
        assert forall|i: int| 0 <= i < whole.len() implies whole[i] == (a + c)[i] by {
            if i >= m * per {
                assert(of_state(data, m as int, per)[i - m * per] == data[i]);
            }
        }
        assert(whole =~= a + c);
    } else {
        assert(0 * per == 0);
        assert(d.gather(sel, off, per) =~= stored_all(data.take(0), ws));
    }
}

/// All results of a family of elements come back as they were written, to the
/// precision of the file.
#[verifier::rlimit(60)]
#[verifier::spinoff_prover]
pub proof fn law_element_results_read_back(d: D3plot, w: D3plotWriter, block: StateBlock)
    requires
        w.recoverable(),
        times_readable(w),
        reads(d, w),
        results_of(w, block) is Some,
    ensures
        ({
            let p = w.layout().block_place(block);
            d.gather(d.every_state(), p.0, p.1 * p.2) == stored_all(
                (results_of(w, block)->0).1@,
                w.wordsize as nat,
            )
        }),
{
    law_reader_finds_states(d, w);
    lemma_vec_lens(w);
    let p = w.layout().block_place(block);
    let r = results_of(w, block)->0;
    let per = p.1 * p.2;
    let ns = w.n_states();
    let ws = w.wordsize as nat;
    assert forall|s: int| 0 <= s < ns implies #[trigger] d.state_floats(s, p.0, per) == stored_all(
        of_state(r.1@, s, per),
        ws,
    ) by {
        law_element_state_reads_back(d, w, block, s);
    }
    let count = elements_of(w, block);
    assert(ns * count * r.0 as nat == ns * (count * r.0 as nat)) by (nonlinear_arith);
    assert(r.1@.len() == ns * per);
    lemma_gather_all(d, r.1@, p.0, per, ws, ns);
    assert(d.every_state().take(ns as int) =~= d.every_state());
    assert(r.1@.take((ns * per) as int) =~= r.1@);
}

} // verus!
