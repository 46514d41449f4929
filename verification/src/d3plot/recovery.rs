//! What a reader makes of a written database, part three: global variables,
//! auxiliary fields, the blocks at the end of a state, and the mesh.

use crate::d3plot::image::{covers, lemma_share, of_state, opt_words, ALIVE};
use crate::d3plot::layout::lemma_holds_split;
use crate::d3plot::query::{alive_before, alive_count, part_field_start};
use crate::d3plot::reader::D3plot;
use crate::d3plot::roundtrip::{
    law_reader_finds_states, lemma_flags_decode, lemma_global_len, lemma_mdlopt, lemma_opt_len,
    lemma_read_section, lemma_state_sections, reads, times_readable,
};
use crate::d3plot::validate::law_valid_is_complete;
use crate::d3plot::words::{fill, floats, lemma_holds_part, stored, stored_all, Word};
use crate::d3plot::writer::{global_slot, D3plotWriter, Deletion};
use crate::d3plot::{GlobalField, NodeField, PartField, StateBlock};
use vstd::prelude::*;

verus! {

/// State `si` of an optional array: its values, or `v` throughout when it was not
/// set.
pub open spec fn opt_values(x: Option<Vec<u64>>, si: int, per: nat, v: u64) -> Seq<u64> {
    match x {
        Some(d) => of_state(d@, si, per),
        None => Seq::new(per, |i: int| v),
    }
}

proof fn lemma_opt_values(x: Option<Vec<u64>>, si: int, ns: nat, per: nat, v: u64)
    requires
        0 <= si < ns,
        covers(x, ns, per),
    ensures
        opt_words(x, si, per, v) == floats(opt_values(x, si, per, v)),
        opt_values(x, si, per, v).len() == per,
{
    lemma_opt_len(x, si, ns, per, v);
    if let Some(d) = x {
        lemma_share(si, ns, per, d@.len());
    } else {
        assert(fill(per, v) =~= floats(Seq::new(per, |i: int| v)));
    }
}

/// A whole-model scalar comes back as it was written; one that was not set reads
/// as zero when any global variable was.
#[verifier::rlimit(60)]
#[verifier::spinoff_prover]
pub proof fn law_global_reads_back(d: D3plot, w: D3plotWriter, field: GlobalField, si: int)
    requires
        w.recoverable(),
        times_readable(w),
        reads(d, w),
        0 <= si < w.n_states(),
        w.globals.some(),
    ensures
        global_slot(field) < w.layout().nglbv,
        d.state_floats(si, (1 + global_slot(field)) as nat, 1) == seq![
            stored(
                match w.globals.scalars@[global_slot(field)] {
                    Some(x) => x@[si],
                    None => 0,
                },
                w.wordsize as nat,
            ),
        ],
{
    law_valid_is_complete(w);
    lemma_state_sections(w, si);
    lemma_global_len(w, si);
    let v = w.layout();
    let b = w.image();
    let ws = w.wordsize as nat;
    let k = w.geometry_len() + si * v.state_words() + 1;
    let slot = global_slot(field);
    let x = match w.globals.scalars@[slot] {
        Some(x) => x@[si],
        None => 0,
    };
    let s = w.global_words(si);
    assert(s[slot] == w.scalar_words(si)[slot]);
    assert(s.subrange(slot, slot + 1) =~= floats(seq![x]));
    lemma_holds_part(b, ws, k, s, slot, floats(seq![x]));
    lemma_read_section(d, w, si, (1 + slot) as nat, seq![x]);
    assert(stored_all(seq![x], ws) =~= seq![stored(x, ws)]);
}

/// The per-part array of a field.
pub open spec fn part_array(w: D3plotWriter, field: PartField) -> Option<Vec<u64>> {
    match field {
        PartField::InternalEnergy => w.globals.parts.internal_energy,
        PartField::KineticEnergy => w.globals.parts.kinetic_energy,
        PartField::Mass => w.globals.parts.mass,
        PartField::HourglassEnergy => w.globals.parts.hourglass_energy,
    }
}

/// A per-part field comes back as it was written; one that was not set reads as
/// zero when the block was written.
#[verifier::rlimit(60)]
#[verifier::spinoff_prover]
pub proof fn law_part_field_reads_back(d: D3plot, w: D3plotWriter, field: PartField, si: int)
    requires
        w.recoverable(),
        times_readable(w),
        reads(d, w),
        0 <= si < w.n_states(),
        w.has_part_block(),
    ensures
        ({
            let np = w.n_parts();
            &&& w.layout().nmmat == np
            &&& part_field_start(field, np) + np <= w.layout().nglbv
            &&& d.state_floats(si, 1 + part_field_start(field, np), np) == stored_all(
                opt_values(part_array(w, field), si, np, 0),
                w.wordsize as nat,
            )
        }),
{
    law_valid_is_complete(w);
    lemma_state_sections(w, si);
    lemma_global_len(w, si);
    let v = w.layout();
    let b = w.image();
    let ws = w.wordsize as nat;
    let k = w.geometry_len() + si * v.state_words() + 1;
    let np = w.n_parts();
    let ns = w.n_states();
    let p = w.globals.parts;
    lemma_opt_values(p.internal_energy, si, ns, np, 0);
    lemma_opt_values(p.kinetic_energy, si, ns, np, 0);
    lemma_opt_values(p.velocity, si, ns, 3 * np, 0);
    lemma_opt_values(p.mass, si, ns, np, 0);
    lemma_opt_values(p.hourglass_energy, si, ns, np, 0);
    let s0 = w.scalar_words(si);
    lemma_holds_split(b, ws, k, s0 + w.part_words(si), w.wall_state_words(si));
    lemma_holds_split(b, ws, k, s0, w.part_words(si));
    let s1 = opt_words(p.internal_energy, si, np, 0);
    let s2 = opt_words(p.kinetic_energy, si, np, 0);
    let s3 = opt_words(p.velocity, si, 3 * np, 0);
    let s4 = opt_words(p.mass, si, np, 0);
    let s5 = opt_words(p.hourglass_energy, si, np, 0);
    let q = k + 6;
    lemma_holds_split(b, ws, q, s1 + s2 + s3 + s4, s5);
    lemma_holds_split(b, ws, q, s1 + s2 + s3, s4);
    lemma_holds_split(b, ws, q, s1 + s2, s3);
    lemma_holds_split(b, ws, q, s1, s2);
    lemma_read_section(
        d,
        w,
        si,
        1 + part_field_start(field, np),
        opt_values(part_array(w, field), si, np, 0),
    );
}

/// Rigid-wall forces and positions come back as they were written. Without
/// positions the number of walls must not be a multiple of four: the header does
/// not tell such forces from walls with positions.
#[verifier::rlimit(60)]
#[verifier::spinoff_prover]
pub proof fn law_walls_read_back(d: D3plot, w: D3plotWriter, si: int)
    requires
        w.recoverable(),
        times_readable(w),
        reads(d, w),
        0 <= si < w.n_states(),
        w.globals.rigid_wall is Some,
        (w.globals.rigid_wall->0).n_walls > 0,
        (w.globals.rigid_wall->0).position is Some || (w.globals.rigid_wall->0).n_walls % 4 != 0,
    ensures
        ({
            let x = w.globals.rigid_wall->0;
            let v = w.layout();
            let ws = w.wordsize as nat;
            let n = x.n_walls as nat;
            &&& v.n_rigid_walls == n
            &&& (v.n_rigid_wall_vars == 4 <==> x.position is Some)
            &&& d.state_floats(si, d.wall_off(), n) == stored_all(of_state(x.force@, si, n), ws)
            &&& x.position matches Some(p) ==> d.state_floats(si, d.wall_off() + n, 3 * n)
                == stored_all(of_state(p@, si, 3 * n), ws)
        }),
{
    law_valid_is_complete(w);
    law_reader_finds_states(d, w);
    lemma_state_sections(w, si);
    lemma_global_len(w, si);
    crate::d3plot::header::lemma_wall_room(w.n_globals(), w.n_parts());
    let v = w.layout();
    let b = w.image();
    let ws = w.wordsize as nat;
    let k = w.geometry_len() + si * v.state_words() + 1;
    let x = w.globals.rigid_wall->0;
    let n = x.n_walls as nat;
    let ns = w.n_states();
    let s0 = w.scalar_words(si);
    lemma_holds_split(b, ws, k, s0 + w.part_words(si), w.wall_state_words(si));
    let q = k + 6 + 7 * w.n_parts();
    let f = floats(of_state(x.force@, si, n));
    lemma_share(si, ns, n, x.force@.len());
    match x.position {
        Some(p) => {
            lemma_share(si, ns, 3 * n, p@.len());
            lemma_holds_split(b, ws, q, f, floats(of_state(p@, si, 3 * n)));
            lemma_read_section(d, w, si, d.wall_off() + n, of_state(p@, si, 3 * n));
        },
        None => {
            lemma_holds_split(b, ws, q, f, Seq::empty());
        },
    }
    lemma_read_section(d, w, si, d.wall_off(), of_state(x.force@, si, n));
}

/// The array of an auxiliary node field.
pub open spec fn field_array(w: D3plotWriter, field: NodeField) -> Option<Vec<u64>> {
    match field {
        NodeField::Temperature => w.node_thermal.temperature,
        NodeField::HeatFlux => w.node_thermal.heat_flux,
        NodeField::MassScaling => w.node_thermal.mass_scaling,
        NodeField::TemperatureGradient => w.node_thermal.temp_gradient,
        NodeField::ResidualForce => w.node_thermal.residual_force,
        NodeField::ResidualMoment => w.node_thermal.residual_moment,
    }
}

/// An auxiliary node field that was set is there, and comes back as it was
/// written; one that another field brought in reads as zero.
#[verifier::rlimit(60)]
#[verifier::spinoff_prover]
pub proof fn law_node_field_reads_back(d: D3plot, w: D3plotWriter, field: NodeField, si: int)
    requires
        w.recoverable(),
        times_readable(w),
        reads(d, w),
        0 <= si < w.n_states(),
    ensures
        ({
            let v = w.layout();
            let per = v.node_field_width(field) * w.numnp as nat;
            &&& field_array(w, field) is Some ==> v.has_node_field(field)
            &&& v.has_node_field(field) ==> d.state_floats(si, v.node_field_off(field), per)
                == stored_all(opt_values(field_array(w, field), si, per, 0), w.wordsize as nat)
        }),
{
    law_valid_is_complete(w);
    lemma_state_sections(w, si);
    lemma_flags_decode(w);
    let v = w.layout();
    let b = w.image();
    let ws = w.wordsize as nat;
    let st = w.states@[si];
    let t = w.node_thermal;
    let n = w.numnp as nat;
    let ns = w.n_states();
    let k = w.geometry_len() + si * v.state_words() + 1 + v.nglbv;
    lemma_opt_values(t.temperature, si, ns, w.temp_vars() * n, 0);
    lemma_opt_values(t.heat_flux, si, ns, 3 * n, 0);
    lemma_opt_values(t.mass_scaling, si, ns, n, 0);
    lemma_opt_values(t.temp_gradient, si, ns, n, 0);
    lemma_opt_values(t.residual_force, si, ns, 3 * n, 0);
    lemma_opt_values(t.residual_moment, si, ns, 3 * n, 0);
    let e = Seq::<Word>::empty();
    let s0 = floats(st.disp@);
    let s1 = w.thermal_words(si);
    lemma_holds_split(b, ws, k, s0 + s1 + floats(st.vel@), floats(st.acc@));
    lemma_holds_split(b, ws, k, s0 + s1, floats(st.vel@));
    lemma_holds_split(b, ws, k, s0, s1);
    let q = k + 3 * n;
    let a1 = if w.it_ones() >= 1 {
        opt_words(t.temperature, si, w.temp_vars() * n, 0)
    } else {
        e
    };
    let a2 = if w.it_ones() >= 2 {
        opt_words(t.heat_flux, si, 3 * n, 0)
    } else {
        e
    };
    let a3 = if t.mass_scaling is Some {
        opt_words(t.mass_scaling, si, n, 0)
    } else {
        e
    };
    let a4 = if t.temp_gradient is Some {
        opt_words(t.temp_gradient, si, n, 0)
    } else {
        e
    };
    let rf = opt_words(t.residual_force, si, 3 * n, 0);
    let rm = opt_words(t.residual_moment, si, 3 * n, 0);
    let a5 = if w.has_residual() {
        rf + rm
    } else {
        e
    };
    assert(s1 == a1 + a2 + a3 + a4 + a5);
    lemma_holds_split(b, ws, q, a1 + a2 + a3 + a4, a5);
    lemma_holds_split(b, ws, q, a1 + a2 + a3, a4);
    lemma_holds_split(b, ws, q, a1 + a2, a3);
    lemma_holds_split(b, ws, q, a1, a2);
    if w.has_residual() {
        lemma_holds_split(b, ws, q + (a1 + a2 + a3 + a4).len(), rf, rm);
    }
    assert(1 * n == n);
    assert(v.node_field_words(NodeField::Temperature) == a1.len());
    assert(v.node_field_words(NodeField::HeatFlux) == a2.len());
    assert(v.node_field_words(NodeField::MassScaling) == a3.len());
    assert(v.node_field_words(NodeField::TemperatureGradient) == a4.len());
    if v.has_node_field(field) {
        let per = v.node_field_width(field) * n;
        lemma_read_section(
            d,
            w,
            si,
            v.node_field_off(field),
            opt_values(field_array(w, field), si, per, 0),
        );
    }
}

/// Node deletion flags come back as they were written.
#[verifier::rlimit(60)]
#[verifier::spinoff_prover]
pub proof fn law_node_deletion_reads_back(d: D3plot, w: D3plotWriter, si: int)
    requires
        w.recoverable(),
        times_readable(w),
        reads(d, w),
        0 <= si < w.n_states(),
        w.deletion matches Some(Deletion::Node(_)),
    ensures
        w.layout().mdlopt() == 1,
        w.deletion matches Some(Deletion::Node(x)) && d.state_floats(
            si,
            w.layout().deletion_off(),
            w.numnp as nat,
        ) == stored_all(of_state(x@, si, w.numnp as nat), w.wordsize as nat),
{
    law_valid_is_complete(w);
    lemma_state_sections(w, si);
    lemma_mdlopt(w);
    if let Some(Deletion::Node(x)) = w.deletion {
        lemma_share(si, w.n_states(), w.numnp as nat, x@.len());
        lemma_read_section(
            d,
            w,
            si,
            w.layout().deletion_off(),
            of_state(x@, si, w.numnp as nat),
        );
    }
}

/// The deletion flags of a family of elements.
pub open spec fn alive_array(w: D3plotWriter, block: StateBlock) -> Option<Vec<u64>> {
    match w.deletion {
        Some(Deletion::Element { solid, tshell, shell, beam }) => match block {
            StateBlock::Solid => solid,
            StateBlock::ThickShell => tshell,
            StateBlock::Shell => shell,
            StateBlock::Beam => beam,
            _ => None,
        },
        _ => None,
    }
}

/// Element deletion flags come back as they were written; those of a family that
/// got none read as alive.
#[verifier::rlimit(60)]
#[verifier::spinoff_prover]
pub proof fn law_element_deletion_reads_back(
    d: D3plot,
    w: D3plotWriter,
    block: StateBlock,
    si: int,
)
    requires
        w.recoverable(),
        times_readable(w),
        reads(d, w),
        0 <= si < w.n_states(),
        w.deletion matches Some(Deletion::Element { .. }),
        block is Solid || block is ThickShell || block is Shell || block is Beam,
    ensures
        w.layout().mdlopt() == 2,
        d.state_floats(
            si,
            w.layout().deletion_off() + alive_before(w.layout(), block),
            alive_count(w.layout(), block),
        ) == stored_all(
            opt_values(alive_array(w, block), si, alive_count(w.layout(), block), ALIVE),
            w.wordsize as nat,
        ),
{
    law_valid_is_complete(w);
    lemma_state_sections(w, si);
    lemma_mdlopt(w);
    let v = w.layout();
    let b = w.image();
    let ws = w.wordsize as nat;
    let ns = w.n_states();
    let k = w.geometry_len() + si * v.state_words() + v.deletion_off();
    if let Some(Deletion::Element { solid, tshell, shell, beam }) = w.deletion {
        lemma_opt_values(solid, si, ns, w.solids@.len(), ALIVE);
        lemma_opt_values(tshell, si, ns, w.tshells@.len(), ALIVE);
        lemma_opt_values(shell, si, ns, w.shells@.len(), ALIVE);
        lemma_opt_values(beam, si, ns, w.beams@.len(), ALIVE);
        let s0 = opt_words(solid, si, w.solids@.len(), ALIVE);
        let s1 = opt_words(tshell, si, w.tshells@.len(), ALIVE);
        let s2 = opt_words(shell, si, w.shells@.len(), ALIVE);
        let s3 = opt_words(beam, si, w.beams@.len(), ALIVE);
        lemma_holds_split(b, ws, k, s0 + s1 + s2, s3);
        lemma_holds_split(b, ws, k, s0 + s1, s2);
        lemma_holds_split(b, ws, k, s0, s1);
        lemma_read_section(
            d,
            w,
            si,
            v.deletion_off() + alive_before(v, block),
            opt_values(alive_array(w, block), si, alive_count(v, block), ALIVE),
        );
    }
}

/// SPH results come back as they were written.
#[verifier::rlimit(60)]
#[verifier::spinoff_prover]
pub proof fn law_sph_reads_back(d: D3plot, w: D3plotWriter, si: int)
    requires
        w.recoverable(),
        times_readable(w),
        reads(d, w),
        0 <= si < w.n_states(),
        w.sph is Some,
        w.n_particles() > 0,
    ensures
        ({
            let s = w.sph->0;
            let per = s.materials@.len() * (s.n_vars as nat);
            &&& w.layout().nmsph == s.materials@.len()
            &&& w.layout().n_sph_vars == s.n_vars
            &&& d.state_floats(si, w.layout().sph_off(), w.layout().sph_words()) == stored_all(
                of_state(s.results@, si, per),
                w.wordsize as nat,
            )
        }),
{
    law_valid_is_complete(w);
    lemma_state_sections(w, si);
    let s = w.sph->0;
    let per = s.materials@.len() * (s.n_vars as nat);
    lemma_share(si, w.n_states(), per, s.results@.len());
    lemma_read_section(d, w, si, w.layout().sph_off(), of_state(s.results@, si, per));
}

/// Airbag chamber and particle states come back as they were written.
#[verifier::rlimit(60)]
#[verifier::spinoff_prover]
pub proof fn law_airbag_reads_back(d: D3plot, w: D3plotWriter, si: int)
    requires
        w.recoverable(),
        times_readable(w),
        reads(d, w),
        0 <= si < w.n_states(),
        w.airbag is Some,
    ensures
        ({
            let a = w.airbag->0;
            let v = w.layout();
            let chambers = a.n_airbags as nat * a.n_airbag_vars as nat;
            let particles = a.n_particles as nat * a.n_particle_vars as nat;
            let ws = w.wordsize as nat;
            &&& v.n_airbags == a.n_airbags
            &&& v.n_particles == a.n_particles
            &&& v.n_airbag_state_vars == a.n_airbag_vars
            &&& v.n_particle_state_vars == a.n_particle_vars
            &&& d.state_floats(si, v.airbag_off(), chambers) == stored_all(
                of_state(a.airbag_state@, si, chambers),
                ws,
            )
            &&& d.state_floats(si, v.airbag_off() + chambers, particles) == stored_all(
                of_state(a.particle_state@, si, particles),
                ws,
            )
        }),
{
    law_valid_is_complete(w);
    lemma_state_sections(w, si);
    let v = w.layout();
    let b = w.image();
    let ws = w.wordsize as nat;
    let a = w.airbag->0;
    let ns = w.n_states();
    let k = w.geometry_len() + si * v.state_words() + v.airbag_off();
    let chambers = a.n_airbags as nat * a.n_airbag_vars as nat;
    let particles = a.n_particles as nat * a.n_particle_vars as nat;
    lemma_share(si, ns, chambers, a.airbag_state@.len());
    lemma_share(si, ns, particles, a.particle_state@.len());
    lemma_holds_split(
        b,
        ws,
        k,
        floats(of_state(a.airbag_state@, si, chambers)),
        floats(of_state(a.particle_state@, si, particles)),
    );
    lemma_read_section(d, w, si, v.airbag_off(), of_state(a.airbag_state@, si, chambers));
    lemma_read_section(
        d,
        w,
        si,
        v.airbag_off() + chambers,
        of_state(a.particle_state@, si, particles),
    );
}

/// Rigid-road and rigid-body motion come back as they were written.
#[verifier::rlimit(60)]
#[verifier::spinoff_prover]
pub proof fn law_rigid_motion_reads_back(d: D3plot, w: D3plotWriter, si: int)
    requires
        w.recoverable(),
        times_readable(w),
        reads(d, w),
        0 <= si < w.n_states(),
    ensures
        ({
            let v = w.layout();
            let ws = w.wordsize as nat;
            &&& w.rigid_road matches Some(r) ==> v.n_roads == r.segments@.len() && d.state_floats(
                si,
                v.road_off(),
                6 * v.n_roads,
            ) == stored_all(of_state(r.motion@, si, 6 * v.n_roads), ws)
            &&& w.rigid_bodies matches Some(b) ==> v.n_rigids == b.bodies@.len() && v.rigid_vars()
                == w.rigid_width() && d.state_floats(si, v.rigid_off(), v.rigid_words())
                == stored_all(of_state(b.motion@, si, v.rigid_words()), ws)
        }),
{
    law_valid_is_complete(w);
    lemma_state_sections(w, si);
    let v = w.layout();
    let ns = w.n_states();
    if let Some(r) = w.rigid_road {
        lemma_share(si, ns, 6 * r.segments@.len(), r.motion@.len());
        lemma_read_section(d, w, si, v.road_off(), of_state(r.motion@, si, 6 * v.n_roads));
    }
    if let Some(x) = w.rigid_bodies {
        let per = w.rigid_width() * x.bodies@.len();
        lemma_share(si, ns, per, x.motion@.len());
        assert(per == v.rigid_words()) by (nonlinear_arith)
            requires
                per == w.rigid_width() * x.bodies@.len(),
                v.rigid_words() == x.bodies@.len() * w.rigid_width(),
        ;
        lemma_read_section(d, w, si, v.rigid_off(), of_state(x.motion@, si, v.rigid_words()));
    }
}

} // verus!
