//! The byte image of a database under construction.

use crate::d3plot::control::{
    CONTROL_WORDS, FILETYPE, FILETYPE_D3PLOT, IA, ICODE, ICODE_LSDYNA, IDTDT, IOSHL1, IOSHL2,
    IOSHL_PRESENT, IT, IU, IV, MAXINT, NARBS, NDIM, NEIPH, NEIPS, NEL2, NEL4, NEL8, NELTH, NGLBV,
    NMMAT, NMSPH, NPEFG, NUMMAT4, NUMNP, NV1D, NV2D, NV3D, NV3DT, TITLE_WORDS,
};
use crate::d3plot::narbs::{numbering_words, write_narbs, Numbering, UserIds};
use crate::d3plot::words::{
    encode, fill, floats, int_fill, ints, is_word_size, lemma_encode_add, lemma_encode_empty, push_fill,
    push_int_fill, push_word_f, push_word_fs, push_word_i, push_word_is, push_word_u, Word,
};
use crate::d3plot::writer::{D3plotWriter, Deletion, RigidBody, StateData};
use crate::le::{to_i32, wrap_i32};
use vstd::prelude::*;
use vstd::slice::slice_subrange;

verus! {

/// The pattern of the number -999999, which ends the states.
pub const EOF_MARKER: u64 = 0xC12E_847E_0000_0000;
/// The pattern of the number 1, the flag of a living entity.
pub const ALIVE: u64 = 0x3FF0_0000_0000_0000;

/// The rows one after the other.
pub open spec fn rows<const N: usize>(s: Seq<[i32; N]>) -> Seq<Word>
    decreases s.len(),
{
    if s.len() == 0 {
        Seq::empty()
    } else {
        rows(s.drop_last()) + ints(s.last()@)
    }
}

/// The part of `d` that belongs to state `si`, of `per` values each.
pub open spec fn of_state(d: Seq<u64>, si: int, per: nat) -> Seq<u64> {
    d.subrange(si * per, (si + 1) * per)
}

/// State `si` of an optional array of `per` values per state; `v` throughout when
/// the array is absent.
pub open spec fn opt_words(d: Option<Vec<u64>>, si: int, per: nat, v: u64) -> Seq<Word> {
    match d {
        Some(x) => floats(of_state(x@, si, per)),
        None => fill(per, v),
    }
}

/// Values per element of an optional result array.
pub open spec fn width_of(r: Option<(usize, Vec<u64>)>) -> nat {
    match r {
        Some(x) => x.0 as nat,
        None => 0,
    }
}

/// State `si` of an optional result array over `count` elements.
pub open spec fn result_words(r: Option<(usize, Vec<u64>)>, si: int, count: nat) -> Seq<Word> {
    match r {
        Some(x) => floats(of_state(x.1@, si, x.0 as nat * count)),
        None => Seq::empty(),
    }
}

/// The array, if given, has at least `per` values for each of `ns` states.
pub open spec fn covers(d: Option<Vec<u64>>, ns: nat, per: nat) -> bool {
    d matches Some(x) ==> ns * per <= x@.len()
}

pub open spec fn results_cover(r: Option<(usize, Vec<u64>)>, ns: nat, count: nat) -> bool {
    r matches Some(x) ==> ns * (x.0 as nat * count) <= x.1@.len()
}

/// One rigid body: part, nodes and active nodes, each list after its length.
pub open spec fn body_words(b: RigidBody) -> Seq<Word> {
    seq![Word::Int(b.part as int), Word::Int(b.nodes@.len() as int)] + ints(b.nodes@) + seq![
        Word::Int(b.active_nodes@.len() as int),
    ] + ints(b.active_nodes@)
}

pub open spec fn bodies_words(s: Seq<RigidBody>) -> Seq<Word>
    decreases s.len(),
{
    if s.len() == 0 {
        Seq::empty()
    } else {
        bodies_words(s.drop_last()) + body_words(s.last())
    }
}

/// One road surface: its id, its segment count and the nodes of the segments.
pub open spec fn surface_words(x: (i32, Vec<i32>)) -> Seq<Word> {
    seq![Word::Int(x.0 as int), Word::Int((x.1@.len() / 4) as int)] + ints(x.1@)
}

pub open spec fn surfaces_words(s: Seq<(i32, Vec<i32>)>) -> Seq<Word>
    decreases s.len(),
{
    if s.len() == 0 {
        Seq::empty()
    } else {
        surfaces_words(s.drop_last()) + surface_words(s.last())
    }
}

pub open spec fn total_segments(s: Seq<(i32, Vec<i32>)>) -> nat
    decreases s.len(),
{
    if s.len() == 0 {
        0
    } else {
        total_segments(s.drop_last()) + s.last().1@.len() / 4
    }
}

/// The SPH node list: the position of each particle and its material.
pub open spec fn particle_words(m: Seq<i32>) -> Seq<Word> {
    Seq::new(
        2 * m.len(),
        |i: int|
            Word::Int(
                if i % 2 == 0 {
                    i / 2 + 1
                } else {
                    m[i / 2] as int
                },
            ),
    )
}

/// The title bytes: the text, cut or filled with blanks to `n` bytes.
pub open spec fn title_bytes(t: Seq<u8>, n: nat) -> Seq<u8> {
    Seq::new(
        n,
        |i: int|
            if i < t.len() {
                t[i]
            } else {
                32u8
            },
    )
}

pub open spec fn monus(a: nat, b: nat) -> nat {
    if a >= b {
        (a - b) as nat
    } else {
        0
    }
}

impl D3plotWriter {
    pub open spec fn n_states(self) -> nat {
        self.states@.len()
    }

    /// Words per node of the temperature as its length suggests.
    pub open spec fn temperature_width(self) -> nat {
        match self.node_thermal.temperature {
            Some(d) => if self.n_states() > 0 && self.numnp > 0 {
                d@.len() / (self.n_states() * self.numnp as nat)
            } else {
                0
            },
            None => 0,
        }
    }

    /// Ones digit of IT: 3 for three temperature layers and the flux, 2 for a
    /// temperature and the flux, 1 for a temperature. The flux brings in a
    /// temperature.
    pub open spec fn it_ones(self) -> int {
        if self.temperature_width() == 3 {
            3
        } else if self.node_thermal.heat_flux is Some {
            2
        } else if self.node_thermal.temperature is Some {
            1
        } else {
            0
        }
    }

    pub open spec fn temp_vars(self) -> nat {
        if self.it_ones() == 3 {
            3
        } else if self.it_ones() >= 1 {
            1
        } else {
            0
        }
    }

    pub open spec fn has_residual(self) -> bool {
        self.node_thermal.residual_force is Some || self.node_thermal.residual_moment is Some
    }

    pub open spec fn it_flag(self) -> int {
        self.it_ones() + (if self.node_thermal.mass_scaling is Some {
            10int
        } else {
            0int
        })
    }

    pub open spec fn idtdt_flag(self) -> int {
        (if self.node_thermal.temp_gradient is Some {
            1int
        } else {
            0int
        }) + (if self.has_residual() {
            10int
        } else {
            0int
        })
    }

    /// The per-part block is written: for a part field or a rigid wall.
    pub open spec fn has_part_block(self) -> bool {
        self.globals.parts.some() || self.globals.rigid_wall is Some
    }

    pub open spec fn wall_words(self) -> nat {
        match self.globals.rigid_wall {
            Some(w) => w.words(),
            None => 0,
        }
    }

    /// Number of global variables.
    pub open spec fn n_globals(self) -> nat {
        if self.globals.some() {
            6 + (if self.has_part_block() {
                7 * self.n_parts()
            } else {
                0
            }) + self.wall_words()
        } else {
            0
        }
    }

    /// Layers with the deletion flag packed into the sign and size.
    pub open spec fn maxint_flag(self) -> int {
        match self.deletion {
            None => wrap_i32(self.shell_layers as int),
            Some(Deletion::Node(_)) => -wrap_i32(self.shell_layers as int),
            Some(Deletion::Element { .. }) => -wrap_i32(self.shell_layers + 10000),
        }
    }

    pub open spec fn n_particles(self) -> nat {
        match self.sph {
            Some(s) => s.materials@.len(),
            None => 0,
        }
    }

    pub open spec fn n_sph_vars(self) -> nat {
        match self.sph {
            Some(s) => s.n_vars as nat,
            None => 0,
        }
    }

    /// NDIM: 9 for rigid bodies and roads, 8 for bodies, 6 for roads, else plain.
    pub open spec fn ndim_flag(self) -> int {
        if self.rigid_bodies is Some && self.rigid_road is Some {
            9
        } else if self.rigid_bodies is Some {
            8
        } else if self.rigid_road is Some {
            6
        } else {
            4
        }
    }

    pub open spec fn numbering(self) -> Numbering {
        Numbering {
            nodes: self.numnp,
            solids: self.solids@.len() as usize,
            beams: self.beams@.len() as usize,
            shells: self.shells@.len() as usize,
            tshells: self.tshells@.len() as usize,
            parts: self.n_parts() as usize,
        }
    }

    pub open spec fn shell_per_layer(self) -> nat {
        width_of(self.shell_results) / (self.shell_layers as nat)
    }

    /// The element records carry the six stresses.
    pub open spec fn has_stress(self) -> bool {
        width_of(self.solid_results) >= 6 || self.shell_per_layer() >= 6
    }

    /// The element records carry the plastic strain.
    pub open spec fn has_pstrain(self) -> bool {
        width_of(self.solid_results) >= 7 || self.shell_per_layer() >= 7
    }

    pub open spec fn base_vars(self) -> nat {
        (if self.has_stress() {
            6nat
        } else {
            0nat
        }) + (if self.has_pstrain() {
            1nat
        } else {
            0nat
        })
    }

    /// Header word `k`, for `k` past the title.
    pub open spec fn header_word(self, k: int) -> int {
        if k == FILETYPE {
            1
        } else if k == NDIM {
            self.ndim_flag()
        } else if k == NUMNP {
            wrap_i32(self.numnp as int)
        } else if k == ICODE {
            6
        } else if k == NGLBV {
            wrap_i32(self.n_globals() as int)
        } else if k == IT {
            self.it_flag()
        } else if k == IU {
            1
        } else if k == IV {
            if self.fields.velocity {
                1
            } else {
                0
            }
        } else if k == IA {
            if self.fields.acceleration {
                1
            } else {
                0
            }
        } else if k == NEL8 {
            wrap_i32(self.solids@.len() as int)
        } else if k == NV3D {
            wrap_i32(width_of(self.solid_results) as int)
        } else if k == NEL2 {
            wrap_i32(self.beams@.len() as int)
        } else if k == NV1D {
            wrap_i32(width_of(self.beam_results) as int)
        } else if k == NEL4 {
            wrap_i32(self.shells@.len() as int)
        } else if k == NUMMAT4 {
            self.n_parts() as int
        } else if k == NV2D {
            wrap_i32(width_of(self.shell_results) as int)
        } else if k == NEIPH {
            wrap_i32(monus(width_of(self.solid_results), self.base_vars()) as int)
        } else if k == NEIPS {
            wrap_i32(monus(self.shell_per_layer(), self.base_vars()) as int)
        } else if k == MAXINT {
            self.maxint_flag()
        } else if k == NMSPH {
            wrap_i32(self.n_particles() as int)
        } else if k == NARBS {
            wrap_i32(self.numbering().len() as int)
        } else if k == NELTH {
            wrap_i32(self.tshells@.len() as int)
        } else if k == NV3DT {
            wrap_i32(width_of(self.tshell_results) as int)
        } else if k == IOSHL1 {
            if self.has_stress() {
                1000
            } else {
                0
            }
        } else if k == IOSHL2 {
            if self.has_pstrain() {
                1000
            } else {
                0
            }
        } else if k == NMMAT {
            self.n_parts() as int
        } else if k == NPEFG {
            match self.airbag {
                Some(a) => wrap_i32(a.n_airbags as int),
                None => 0,
            }
        } else if k == IDTDT {
            self.idtdt_flag()
        } else {
            0
        }
    }

    pub open spec fn header_words(self) -> Seq<Word> {
        Seq::new(54, |i: int| Word::Int(self.header_word(i + 10)))
    }

    /// SPH flags, from which a reader gets the particle width back.
    pub open spec fn sph_flag_words(self) -> Seq<Word> {
        if self.n_particles() > 0 {
            seq![Word::Int(11), Word::Int(monus(self.n_sph_vars(), 1) as int)] + int_fill(9, 0)
        } else {
            Seq::empty()
        }
    }

    /// Airbag flags: four counts, and a type and a name for each variable.
    pub open spec fn airbag_flag_words(self) -> Seq<Word> {
        match self.airbag {
            Some(a) => seq![
                Word::Int(a.n_geom_vars as int),
                Word::Int(a.n_particle_vars as int),
                Word::Int(a.n_particles as int),
                Word::Int(a.n_airbag_vars as int),
            ] + int_fill(
                (9 * (a.n_geom_vars + a.n_particle_vars + a.n_airbag_vars)) as nat,
                0,
            ),
            None => Seq::empty(),
        }
    }

    pub open spec fn mesh_words(self) -> Seq<Word> {
        floats(self.x0@) + rows(self.solids@) + rows(self.tshells@) + rows(self.beams@) + rows(
            self.shells@,
        )
    }

    pub open spec fn user_ids(&self) -> UserIds<'_> {
        UserIds {
            nodes: opt_ref(&self.node_ids),
            solids: opt_ref(&self.solid_ids),
            beams: opt_ref(&self.beam_ids),
            shells: opt_ref(&self.shell_ids),
            tshells: opt_ref(&self.tshell_ids),
            parts: opt_ref(&self.part_ids),
        }
    }

    pub open spec fn narbs_words(self) -> Seq<Word> {
        numbering_words(self.numbering(), self.user_ids())
    }

    pub open spec fn rigid_body_words(self) -> Seq<Word> {
        match self.rigid_bodies {
            Some(rb) => seq![Word::Int(rb.bodies@.len() as int)] + bodies_words(rb.bodies@),
            None => Seq::empty(),
        }
    }

    pub open spec fn sph_node_words(self) -> Seq<Word> {
        match self.sph {
            Some(s) => particle_words(s.materials@),
            None => Seq::empty(),
        }
    }

    pub open spec fn airbag_geometry_words(self) -> Seq<Word> {
        match self.airbag {
            Some(a) => floats(a.geom@),
            None => Seq::empty(),
        }
    }

    pub open spec fn road_words(self) -> Seq<Word> {
        match self.rigid_road {
            Some(r) => seq![
                Word::Int(r.node_ids@.len() as int),
                Word::Int(total_segments(r.segments@) as int),
                Word::Int(r.segments@.len() as int),
                Word::Int(1),
            ] + ints(r.node_ids@) + floats(r.node_coords@) + surfaces_words(r.segments@),
            None => Seq::empty(),
        }
    }

    /// The geometry, from the header to the first state.
    pub open spec fn geometry_words(self) -> Seq<Word> {
        self.header_words() + self.sph_flag_words() + self.airbag_flag_words() + self.mesh_words()
            + self.narbs_words() + self.rigid_body_words() + self.sph_node_words()
            + self.airbag_geometry_words() + self.road_words()
    }

    pub open spec fn scalar_words(self, si: int) -> Seq<Word> {
        Seq::new(
            6,
            |i: int|
                Word::Float(
                    match self.globals.scalars@[i] {
                        Some(d) => d@[si],
                        None => 0,
                    },
                ),
        )
    }

    pub open spec fn part_words(self, si: int) -> Seq<Word> {
        let p = self.globals.parts;
        let n = self.n_parts();
        opt_words(p.internal_energy, si, n, 0) + opt_words(p.kinetic_energy, si, n, 0) + opt_words(
            p.velocity,
            si,
            3 * n,
            0,
        ) + opt_words(p.mass, si, n, 0) + opt_words(p.hourglass_energy, si, n, 0)
    }

    pub open spec fn wall_state_words(self, si: int) -> Seq<Word> {
        match self.globals.rigid_wall {
            Some(w) => floats(of_state(w.force@, si, w.n_walls as nat)) + (match w.position {
                Some(p) => floats(of_state(p@, si, 3 * w.n_walls as nat)),
                None => Seq::empty(),
            }),
            None => Seq::empty(),
        }
    }

    /// Global variables of a state: the scalars, the per-part block, the walls.
    pub open spec fn global_words(self, si: int) -> Seq<Word> {
        if self.globals.some() {
            self.scalar_words(si) + (if self.has_part_block() {
                self.part_words(si)
            } else {
                Seq::empty()
            }) + self.wall_state_words(si)
        } else {
            Seq::empty()
        }
    }

    /// Auxiliary node fields of a state.
    pub open spec fn thermal_words(self, si: int) -> Seq<Word> {
        let t = self.node_thermal;
        let n = self.numnp as nat;
        (if self.it_ones() >= 1 {
            opt_words(t.temperature, si, self.temp_vars() * n, 0)
        } else {
            Seq::empty()
        }) + (if self.it_ones() >= 2 {
            opt_words(t.heat_flux, si, 3 * n, 0)
        } else {
            Seq::empty()
        }) + (if t.mass_scaling is Some {
            opt_words(t.mass_scaling, si, n, 0)
        } else {
            Seq::empty()
        }) + (if t.temp_gradient is Some {
            opt_words(t.temp_gradient, si, n, 0)
        } else {
            Seq::empty()
        }) + (if self.has_residual() {
            opt_words(t.residual_force, si, 3 * n, 0) + opt_words(t.residual_moment, si, 3 * n, 0)
        } else {
            Seq::empty()
        })
    }

    /// Node data of a state.
    pub open spec fn node_words(self, si: int) -> Seq<Word> {
        let st = self.states@[si];
        floats(st.disp@) + self.thermal_words(si) + floats(st.vel@) + floats(st.acc@)
    }

    /// Element results of a state.
    pub open spec fn element_words(self, si: int) -> Seq<Word> {
        result_words(self.solid_results, si, self.solids@.len()) + result_words(
            self.tshell_results,
            si,
            self.tshells@.len(),
        ) + result_words(self.beam_results, si, self.beams@.len()) + result_words(
            self.shell_results,
            si,
            self.shells@.len(),
        )
    }

    /// Deletion flags of a state: of the nodes, or of solids, thick shells,
    /// shells and beams.
    pub open spec fn deletion_state_words(self, si: int) -> Seq<Word> {
        match self.deletion {
            None => Seq::empty(),
            Some(Deletion::Node(d)) => floats(of_state(d@, si, self.numnp as nat)),
            Some(Deletion::Element { solid, tshell, shell, beam }) => opt_words(
                solid,
                si,
                self.solids@.len(),
                ALIVE,
            ) + opt_words(tshell, si, self.tshells@.len(), ALIVE) + opt_words(
                shell,
                si,
                self.shells@.len(),
                ALIVE,
            ) + opt_words(beam, si, self.beams@.len(), ALIVE),
        }
    }

    pub open spec fn sph_state_words(self, si: int) -> Seq<Word> {
        match self.sph {
            Some(s) => floats(of_state(s.results@, si, s.materials@.len() * (s.n_vars as nat))),
            None => Seq::empty(),
        }
    }

    pub open spec fn airbag_state_words(self, si: int) -> Seq<Word> {
        match self.airbag {
            Some(a) => floats(
                of_state(a.airbag_state@, si, a.n_airbags as nat * a.n_airbag_vars as nat),
            ) + floats(
                of_state(a.particle_state@, si, a.n_particles as nat * a.n_particle_vars as nat),
            ),
            None => Seq::empty(),
        }
    }

    pub open spec fn road_state_words(self, si: int) -> Seq<Word> {
        match self.rigid_road {
            Some(r) => floats(of_state(r.motion@, si, 6 * r.segments@.len())),
            None => Seq::empty(),
        }
    }

    /// Words per rigid body and state.
    pub open spec fn rigid_width(self) -> nat {
        if self.rigid_road is Some {
            12
        } else {
            24
        }
    }

    pub open spec fn body_state_words(self, si: int) -> Seq<Word> {
        match self.rigid_bodies {
            Some(b) => floats(of_state(b.motion@, si, self.rigid_width() * b.bodies@.len())),
            None => Seq::empty(),
        }
    }

    /// The words of state `si`.
    pub open spec fn state_words(self, si: int) -> Seq<Word> {
        seq![Word::Float(self.states@[si].time)] + self.global_words(si) + self.node_words(si)
            + self.element_words(si) + self.deletion_state_words(si) + self.sph_state_words(si)
            + self.airbag_state_words(si) + self.road_state_words(si) + self.body_state_words(si)
    }

    /// The words of the first `n` states.
    pub open spec fn states_words(self, n: nat) -> Seq<Word>
        decreases n,
    {
        if n == 0 {
            Seq::empty()
        } else {
            self.states_words((n - 1) as nat) + self.state_words(n - 1)
        }
    }

    /// All words after the title: the geometry, the states and the end marker.
    pub open spec fn words(self) -> Seq<Word> {
        self.geometry_words() + self.states_words(self.n_states()) + seq![Word::Float(EOF_MARKER)]
    }

    pub open spec fn title_image(self) -> Seq<u8> {
        title_bytes(vstd::utf8::encode_utf8(self.title@), (10 * self.wordsize) as nat)
    }

    /// The bytes of the database.
    pub open spec fn image(self) -> Seq<u8> {
        self.title_image() + encode(self.wordsize as nat, self.words())
    }

    /// Every array has the values that the states need.
    pub open spec fn complete(self) -> bool {
        let ns = self.n_states();
        let n = self.numnp as nat;
        let np = self.n_parts();
        let p = self.globals.parts;
        let t = self.node_thermal;
        &&& results_cover(self.solid_results, ns, self.solids@.len())
        &&& results_cover(self.tshell_results, ns, self.tshells@.len())
        &&& results_cover(self.beam_results, ns, self.beams@.len())
        &&& results_cover(self.shell_results, ns, self.shells@.len())
        &&& forall|i: int|
            0 <= i < self.globals.scalars@.len() ==> covers(#[trigger] self.globals.scalars@[i], ns, 1)
        &&& covers(p.internal_energy, ns, np)
        &&& covers(p.kinetic_energy, ns, np)
        &&& covers(p.velocity, ns, 3 * np)
        &&& covers(p.mass, ns, np)
        &&& covers(p.hourglass_energy, ns, np)
        &&& (self.globals.rigid_wall matches Some(w) ==> ns * w.n_walls as nat <= w.force@.len()
            && covers(w.position, ns, 3 * w.n_walls as nat))
        &&& covers(t.temperature, ns, self.temp_vars() * n)
        &&& covers(t.heat_flux, ns, 3 * n)
        &&& covers(t.mass_scaling, ns, n)
        &&& covers(t.temp_gradient, ns, n)
        &&& covers(t.residual_force, ns, 3 * n)
        &&& covers(t.residual_moment, ns, 3 * n)
        &&& match self.deletion {
            None => true,
            Some(Deletion::Node(d)) => ns * n <= d@.len(),
            Some(Deletion::Element { solid, tshell, shell, beam }) => covers(
                solid,
                ns,
                self.solids@.len(),
            ) && covers(tshell, ns, self.tshells@.len()) && covers(shell, ns, self.shells@.len())
                && covers(beam, ns, self.beams@.len()),
        }
        &&& (self.sph matches Some(s) ==> ns * (s.materials@.len() * (s.n_vars as nat))
            <= s.results@.len())
        &&& (self.airbag matches Some(a) ==> ns * (a.n_airbags as nat * a.n_airbag_vars as nat)
            <= a.airbag_state@.len() && ns * (a.n_particles as nat * a.n_particle_vars as nat)
            <= a.particle_state@.len())
        &&& (self.rigid_road matches Some(r) ==> ns * (6 * r.segments@.len()) <= r.motion@.len())
        &&& (self.rigid_bodies matches Some(b) ==> ns * (self.rigid_width() * b.bodies@.len())
            <= b.motion@.len())
    }

    /// The counts stay within the machine's numbers and the 32-bit words of the
    /// numbering section and the layer flag.
    pub open spec fn countable(self) -> bool {
        &&& self.numbering().fits()
        &&& self.n_globals() <= usize::MAX
        &&& self.shell_layers + 10000 <= usize::MAX
        &&& match self.deletion {
            None => true,
            Some(Deletion::Node(_)) => wrap_i32(self.shell_layers as int) > i32::MIN,
            Some(Deletion::Element { .. }) => wrap_i32(self.shell_layers + 10000) > i32::MIN,
        }
        &&& (self.airbag matches Some(a) ==> 9 * (a.n_geom_vars + a.n_particle_vars
            + a.n_airbag_vars) <= usize::MAX)
        &&& (self.rigid_road matches Some(r) ==> total_segments(r.segments@) <= usize::MAX)
    }
}

pub open spec fn opt_ref(v: &Option<Vec<i32>>) -> Option<&Vec<i32>> {
    match v {
        Some(x) => Some(x),
        None => None,
    }
}

/// The low 32 bits of a count, as a signed number.
pub fn wrap_count(v: usize) -> (r: i64)
    ensures
        r == wrap_i32(v as int),
{
    proof {
        crate::le::lemma_pow256_values();
    }
    to_i32((v as u64 % 0x1_0000_0000) as u32) as i64
}

/// Two encodings in a row are the encoding of the words in a row.
pub proof fn lemma_grow(pre: Seq<u8>, ws: nat, done: Seq<Word>, next: Seq<Word>)
    requires
        is_word_size(ws as int),
    ensures
        pre + encode(ws, done) + encode(ws, next) == pre + encode(ws, done + next),
{
    lemma_encode_add(ws, done, next);
    assert(pre + encode(ws, done) + encode(ws, next) =~= pre + encode(ws, done + next));
}

pub proof fn lemma_grow_none(pre: Seq<u8>, ws: nat)
    ensures
        pre + encode(ws, Seq::<Word>::empty()) == pre,
{
    lemma_encode_empty(ws);
    assert(pre + Seq::<u8>::empty() =~= pre);
}

/// A state's share of an array that covers all states lies within it.
pub proof fn lemma_share(si: int, ns: nat, per: nat, len: nat)
    requires
        0 <= si < ns,
        ns * per <= len,
    ensures
        0 <= si * per <= (si + 1) * per <= len,
        (si + 1) * per == si * per + per,
{
    assert((si + 1) * per == si * per + per && 0 <= si * per && (si + 1) * per <= ns * per)
        by (nonlinear_arith)
        requires
            0 <= si,
            si + 1 <= ns,
    ;
}

/// Appends the title, cut or filled with blanks to `n` bytes.
pub fn push_title_text(buf: &mut Vec<u8>, title: &str, n: usize)
    ensures
        final(buf)@ == old(buf)@ + title_bytes(vstd::utf8::encode_utf8(title@), n as nat),
{
    let ghost start = buf@;
    let text: &[u8] = title.as_bytes();
    let ghost all = title_bytes(text@, n as nat);
    for i in 0..n
        invariant
            all == title_bytes(text@, n as nat),
            buf@ == start + all.take(i as int),
    {
        if i < text.len() {
            buf.push(text[i]);
        } else {
            buf.push(32);
        }
        assert(buf@ =~= start + all.take(i + 1));
    }
    assert(all.take(n as int) =~= all);
}

/// Appends the rows.
pub fn push_rows<const N: usize>(buf: &mut Vec<u8>, s: &Vec<[i32; N]>, ws: usize)
    requires
        is_word_size(ws as int),
    ensures
        final(buf)@ == old(buf)@ + encode(ws as nat, rows(s@)),
{
    let ghost start = buf@;
    proof {
        lemma_grow_none(start, ws as nat);
    }
    for i in 0..s.len()
        invariant
            is_word_size(ws as int),
            buf@ == start + encode(ws as nat, rows(s@.take(i as int))),
    {
        proof {
            lemma_grow(start, ws as nat, rows(s@.take(i as int)), ints(s@[i as int]@));
            assert(s@.take(i + 1).drop_last() =~= s@.take(i as int));
        }
        push_word_is(buf, s[i].as_slice(), ws);
    }
    assert(s@.take(s@.len() as int) =~= s@);
}

/// Appends state `si` of an optional array of `per` values per state.
fn push_opt_block(
    buf: &mut Vec<u8>,
    opt: &Option<Vec<u64>>,
    si: usize,
    per: usize,
    v: u64,
    ws: usize,
    Ghost(ns): Ghost<nat>,
)
    requires
        is_word_size(ws as int),
        si < ns,
        covers(*opt, ns, per as nat),
    ensures
        final(buf)@ == old(buf)@ + encode(ws as nat, opt_words(*opt, si as int, per as nat, v)),
{
    match opt {
        Some(d) => {
            push_share(buf, d, si, per, ws, Ghost(ns));
        },
        None => {
            push_fill(buf, per, v, ws);
        },
    }
}

/// Appends state `si` of an array of `per` values per state.
fn push_share(
    buf: &mut Vec<u8>,
    d: &Vec<u64>,
    si: usize,
    per: usize,
    ws: usize,
    Ghost(ns): Ghost<nat>,
)
    requires
        is_word_size(ws as int),
        si < ns,
        ns * per as nat <= d@.len(),
    ensures
        final(buf)@ == old(buf)@ + encode(
            ws as nat,
            floats(of_state(d@, si as int, per as nat)),
        ),
{
    let len: usize = d.len();
    proof {
        lemma_share(si as int, ns, per as nat, len as nat);
    }
    let a: usize = si * per;
    push_word_fs(buf, slice_subrange(d.as_slice(), a, a + per), ws);
}

/// Appends state `si` of an optional result array over `count` elements.
fn push_results(
    buf: &mut Vec<u8>,
    r: &Option<(usize, Vec<u64>)>,
    si: usize,
    count: usize,
    ws: usize,
    Ghost(ns): Ghost<nat>,
)
    requires
        is_word_size(ws as int),
        si < ns,
        results_cover(*r, ns, count as nat),
    ensures
        final(buf)@ == old(buf)@ + encode(ws as nat, result_words(*r, si as int, count as nat)),
{
    match r {
        Some(x) => {
            let len: usize = x.1.len();
            proof {
                lemma_share(si as int, ns, x.0 as nat * count as nat, len as nat);
            }
            let per: usize = x.0 * count;
            push_share(buf, &x.1, si, per, ws, Ghost(ns));
        },
        None => {
            proof {
                lemma_grow_none(buf@, ws as nat);
            }
        },
    }
}

fn push_body(buf: &mut Vec<u8>, b: &RigidBody, ws: usize)
    requires
        is_word_size(ws as int),
    ensures
        final(buf)@ == old(buf)@ + encode(ws as nat, body_words(*b)),
{
    let ghost start = buf@;
    let ghost w = ws as nat;
    push_word_i(buf, b.part as i64, ws);
    push_word_u(buf, b.nodes.len() as u64, ws);
    push_word_is(buf, b.nodes.as_slice(), ws);
    push_word_u(buf, b.active_nodes.len() as u64, ws);
    push_word_is(buf, b.active_nodes.as_slice(), ws);
    proof {
        let s0 = seq![Word::Int(b.part as int)];
        let s1 = seq![Word::Int(b.nodes@.len() as int)];
        let s2 = ints(b.nodes@);
        let s3 = seq![Word::Int(b.active_nodes@.len() as int)];
        let s4 = ints(b.active_nodes@);
        lemma_grow(start, w, s0, s1);
        lemma_grow(start, w, s0 + s1, s2);
        lemma_grow(start, w, s0 + s1 + s2, s3);
        lemma_grow(start, w, s0 + s1 + s2 + s3, s4);
        assert(s0 + s1 =~= seq![
            Word::Int(b.part as int),
            Word::Int(b.nodes@.len() as int),
        ]);
    }
}

fn push_surface(buf: &mut Vec<u8>, x: &(i32, Vec<i32>), ws: usize)
    requires
        is_word_size(ws as int),
    ensures
        final(buf)@ == old(buf)@ + encode(ws as nat, surface_words(*x)),
{
    let ghost start = buf@;
    let ghost w = ws as nat;
    push_word_i(buf, x.0 as i64, ws);
    push_word_u(buf, (x.1.len() / 4) as u64, ws);
    push_word_is(buf, x.1.as_slice(), ws);
    proof {
        let s0 = seq![Word::Int(x.0 as int)];
        let s1 = seq![Word::Int((x.1@.len() / 4) as int)];
        let s2 = ints(x.1@);
        lemma_grow(start, w, s0, s1);
        lemma_grow(start, w, s0 + s1, s2);
        assert(s0 + s1 =~= seq![Word::Int(x.0 as int), Word::Int((x.1@.len() / 4) as int)]);
    }
}

impl D3plotWriter {
    /// The counts stay within the machine's numbers and the 32-bit words of the
    /// numbering section and the layer flag.
    pub fn is_countable(&self) -> (r: bool)
        ensures
            r == self.countable(),
    {
        self.numbering_fits() && self.globals_fit() && self.layers_fit() && self.airbag_fits()
            && self.road_fits()
    }

    fn numbering_fits(&self) -> (r: bool)
        ensures
            r == self.numbering().fits(),
    {
        let n: Numbering = self.count_numbering();
        1 + n.nodes as u128 + n.solids as u128 + n.beams as u128 + n.shells as u128
            + n.tshells as u128 + 2 * n.parts as u128 <= i32::MAX as u128
    }

    fn globals_fit(&self) -> (r: bool)
        ensures
            r == (self.n_globals() <= usize::MAX),
    {
        if !self.globals.any() {
            return true;
        }
        let walls: u128 = match &self.globals.rigid_wall {
            Some(w) => if w.position.is_some() {
                4 * w.n_walls as u128
            } else {
                w.n_walls as u128
            },
            None => 0,
        };
        let parts: u128 = if self.globals.parts.any() || self.globals.rigid_wall.is_some() {
            7 * self.part_count() as u128
        } else {
            0
        };
        6 + parts + walls <= usize::MAX as u128
    }

    fn layers_fit(&self) -> (r: bool)
        ensures
            r == (self.shell_layers + 10000 <= usize::MAX && match self.deletion {
                None => true,
                Some(Deletion::Node(_)) => wrap_i32(self.shell_layers as int) > i32::MIN,
                Some(Deletion::Element { .. }) => wrap_i32(self.shell_layers + 10000) > i32::MIN,
            }),
    {
        if self.shell_layers > usize::MAX - 10000 {
            return false;
        }
        match &self.deletion {
            None => true,
            Some(Deletion::Node(_)) => wrap_count(self.shell_layers) > i32::MIN as i64,
            Some(Deletion::Element { .. }) => wrap_count(self.shell_layers + 10000)
                > i32::MIN as i64,
        }
    }

    fn airbag_fits(&self) -> (r: bool)
        ensures
            r == (self.airbag matches Some(a) ==> 9 * (a.n_geom_vars + a.n_particle_vars
                + a.n_airbag_vars) <= usize::MAX),
    {
        match &self.airbag {
            Some(a) => 9 * (a.n_geom_vars as u128 + a.n_particle_vars as u128
                + a.n_airbag_vars as u128) <= usize::MAX as u128,
            None => true,
        }
    }

    fn road_fits(&self) -> (r: bool)
        ensures
            r == (self.rigid_road matches Some(x) ==> total_segments(x.segments@) <= usize::MAX),
    {
        match &self.rigid_road {
            None => true,
            Some(x) => {
                let mut n: usize = 0;
                for i in 0..x.segments.len()
                    invariant
                        self.rigid_road is Some,
                        self.rigid_road->0 == *x,
                        n == total_segments(x.segments@.take(i as int)),
                {
                    proof {
                        lemma_segments_grow(x.segments@, i + 1);
                        assert(x.segments@.take(i + 1).drop_last() =~= x.segments@.take(i as int));
                    }
                    let k: usize = x.segments[i].1.len() / 4;
                    if k > usize::MAX - n {
                        return false;
                    }
                    n = n + k;
                }
                assert(x.segments@.take(x.segments@.len() as int) =~= x.segments@);
                true
            },
        }
    }

    /// Number of global variables.
    fn count_globals(&self) -> (r: usize)
        requires
            self.countable(),
        ensures
            r == self.n_globals(),
    {
        if !self.globals.any() {
            return 0;
        }
        let walls: usize = match &self.globals.rigid_wall {
            Some(w) => if w.position.is_some() {
                4 * w.n_walls
            } else {
                w.n_walls
            },
            None => 0,
        };
        if self.globals.parts.any() || self.globals.rigid_wall.is_some() {
            6 + 7 * self.part_count() + walls
        } else {
            6 + walls
        }
    }

    fn it_digit(&self) -> (r: i64)
        requires
            self.wf(),
            covers(
                self.node_thermal.temperature,
                self.n_states(),
                self.temp_vars() * self.numnp as nat,
            ),
        ensures
            r == self.it_ones(),
    {
        if let Some(d) = &self.node_thermal.temperature {
            let ns: usize = self.states.len();
            if ns > 0 {
                let len: usize = d.len();
                proof {
                    let n = self.numnp as nat;
                    let t = self.temp_vars();
                    assert(t >= 1);
                    assert(ns * n <= ns * (t * n)) by (nonlinear_arith)
                        requires
                            t >= 1,
                    ;
                    assert(ns * n > 0) by (nonlinear_arith)
                        requires
                            ns > 0,
                            n > 0,
                    ;
                }
                if len / (ns * self.numnp) == 3 {
                    return 3;
                }
            }
        }
        if self.node_thermal.heat_flux.is_some() {
            2
        } else if self.node_thermal.temperature.is_some() {
            1
        } else {
            0
        }
    }

    fn maxint(&self) -> (r: i64)
        requires
            self.countable(),
        ensures
            r == self.maxint_flag(),
    {
        match &self.deletion {
            None => wrap_count(self.shell_layers),
            Some(Deletion::Node(_)) => -wrap_count(self.shell_layers),
            Some(Deletion::Element { .. }) => -wrap_count(self.shell_layers + 10000),
        }
    }

    fn count_numbering(&self) -> (r: Numbering)
        ensures
            r == self.numbering(),
    {
        Numbering {
            nodes: self.numnp,
            solids: self.solids.len(),
            beams: self.beams.len(),
            shells: self.shells.len(),
            tshells: self.tshells.len(),
            parts: self.part_count(),
        }
    }

    fn solid_width(&self) -> (r: usize)
        ensures
            r == width_of(self.solid_results),
    {
        match &self.solid_results {
            Some(x) => x.0,
            None => 0,
        }
    }

    fn layer_width(&self) -> (r: usize)
        requires
            self.wf(),
        ensures
            r == self.shell_per_layer(),
    {
        match &self.shell_results {
            Some(x) => x.0 / self.shell_layers,
            None => {
                assert(0nat / (self.shell_layers as nat) == 0) by (nonlinear_arith)
                    requires
                        self.shell_layers >= 1,
                ;
                0
            },
        }
    }

    fn stress(&self) -> (r: bool)
        requires
            self.wf(),
        ensures
            r == self.has_stress(),
    {
        self.solid_width() >= 6 || self.layer_width() >= 6
    }

    fn pstrain(&self) -> (r: bool)
        requires
            self.wf(),
        ensures
            r == self.has_pstrain(),
    {
        self.solid_width() >= 7 || self.layer_width() >= 7
    }

    fn base_width(&self) -> (r: usize)
        requires
            self.wf(),
        ensures
            r == self.base_vars(),
    {
        let s: usize = if self.stress() { 6 } else { 0 };
        let p: usize = if self.pstrain() { 1 } else { 0 };
        s + p
    }

    /// Header word `k`.
    fn header_value(&self, k: usize) -> (r: i64)
        requires
            self.wf(),
            self.countable(),
            self.complete(),
        ensures
            r == self.header_word(k as int),
    {
        if k == FILETYPE {
            FILETYPE_D3PLOT
        } else if k == NDIM {
            match (&self.rigid_bodies, &self.rigid_road) {
                (Some(_), Some(_)) => 9,
                (Some(_), None) => 8,
                (None, Some(_)) => 6,
                (None, None) => 4,
            }
        } else if k == NUMNP {
            wrap_count(self.numnp)
        } else if k == ICODE {
            ICODE_LSDYNA
        } else if k == NGLBV {
            wrap_count(self.count_globals())
        } else if k == IT {
            let mass: i64 = if self.node_thermal.mass_scaling.is_some() { 10 } else { 0 };
            self.it_digit() + mass
        } else if k == IU {
            1
        } else if k == IV {
            if self.fields.velocity { 1 } else { 0 }
        } else if k == IA {
            if self.fields.acceleration { 1 } else { 0 }
        } else if k == NEL8 {
            wrap_count(self.solids.len())
        } else if k == NV3D {
            wrap_count(self.solid_width())
        } else if k == NEL2 {
            wrap_count(self.beams.len())
        } else if k == NV1D {
            match &self.beam_results {
                Some(x) => wrap_count(x.0),
                None => wrap_count(0),
            }
        } else if k == NEL4 {
            wrap_count(self.shells.len())
        } else if k == NUMMAT4 || k == NMMAT {
            self.part_count() as i64
        } else if k == NV2D {
            match &self.shell_results {
                Some(x) => wrap_count(x.0),
                None => wrap_count(0),
            }
        } else if k == NEIPH {
            let base: usize = self.base_width();
            let w: usize = self.solid_width();
            wrap_count(if w >= base { w - base } else { 0 })
        } else if k == NEIPS {
            let base: usize = self.base_width();
            let w: usize = self.layer_width();
            wrap_count(if w >= base { w - base } else { 0 })
        } else if k == MAXINT {
            self.maxint()
        } else if k == NMSPH {
            match &self.sph {
                Some(s) => wrap_count(s.materials.len()),
                None => wrap_count(0),
            }
        } else if k == NARBS {
            let n: Numbering = self.count_numbering();
            wrap_count(n.nodes + n.solids + n.beams + n.shells + n.tshells + 3 * n.parts + 16)
        } else if k == NELTH {
            wrap_count(self.tshells.len())
        } else if k == NV3DT {
            match &self.tshell_results {
                Some(x) => wrap_count(x.0),
                None => wrap_count(0),
            }
        } else if k == IOSHL1 {
            if self.stress() { IOSHL_PRESENT } else { 0 }
        } else if k == IOSHL2 {
            if self.pstrain() { IOSHL_PRESENT } else { 0 }
        } else if k == NPEFG {
            match &self.airbag {
                Some(a) => wrap_count(a.n_airbags),
                None => 0,
            }
        } else if k == IDTDT {
            let grad: i64 = if self.node_thermal.temp_gradient.is_some() { 1 } else { 0 };
            let resid: i64 = if self.node_thermal.residual_force.is_some()
                || self.node_thermal.residual_moment.is_some() {
                10
            } else {
                0
            };
            grad + resid
        } else {
            0
        }
    }

    fn push_header(&self, buf: &mut Vec<u8>)
        requires
            self.wf(),
            self.countable(),
            self.complete(),
        ensures
            final(buf)@ == old(buf)@ + encode(self.wordsize as nat, self.header_words()),
    {
        let ghost start = buf@;
        let ghost all = self.header_words();
        let ws: usize = self.wordsize;
        proof {
            assert(all.take(0) =~= Seq::<Word>::empty());
            lemma_grow_none(start, ws as nat);
        }
        for k in TITLE_WORDS..CONTROL_WORDS
            invariant
                self.wf(),
                self.countable(),
                self.complete(),
                ws == self.wordsize,
                all == self.header_words(),
                buf@ == start + encode(ws as nat, all.take(k - 10)),
        {
            let v: i64 = self.header_value(k);
            proof {
                assert(all[k - 10] == Word::Int(v as int));
                assert(all.take(k - 9) =~= all.take(k - 10) + seq![Word::Int(v as int)]);
                lemma_grow(start, ws as nat, all.take(k - 10), seq![Word::Int(v as int)]);
            }
            push_word_i(buf, v, ws);
        }
        assert(all.take(54) =~= all);
    }

    fn push_title(&self, buf: &mut Vec<u8>)
        requires
            self.wf(),
        ensures
            final(buf)@ == old(buf)@ + self.title_image(),
    {
        push_title_text(buf, self.title.as_str(), TITLE_WORDS * self.wordsize);
    }

    fn push_flags(&self, buf: &mut Vec<u8>)
        requires
            self.wf(),
            self.countable(),
        ensures
            final(buf)@ == old(buf)@ + encode(
                self.wordsize as nat,
                self.sph_flag_words() + self.airbag_flag_words(),
            ),
    {
        let ghost start = buf@;
        let ws: usize = self.wordsize;
        let ghost w = ws as nat;
        proof {
            lemma_grow_none(start, w);
        }
        if let Some(s) = &self.sph {
            if s.materials.len() > 0 {
                let width: u64 = if s.n_vars == 0 { 0 } else { s.n_vars as u64 - 1 };
                push_word_i(buf, 11, ws);
                push_word_u(buf, width, ws);
                push_int_fill(buf, 9, 0, ws);
                proof {
                    let s0 = seq![Word::Int(11)];
                    let s1 = seq![Word::Int(width as int)];
                    lemma_grow(start, w, s0, s1);
                    lemma_grow(start, w, s0 + s1, int_fill(9, 0));
                    assert(s0 + s1 =~= seq![Word::Int(11), Word::Int(width as int)]);
                }
            }
        }
        let ghost mid = self.sph_flag_words();
        assert(buf@ == start + encode(w, mid));
        match &self.airbag {
            Some(a) => {
                push_word_u(buf, a.n_geom_vars as u64, ws);
                push_word_u(buf, a.n_particle_vars as u64, ws);
                push_word_u(buf, a.n_particles as u64, ws);
                push_word_u(buf, a.n_airbag_vars as u64, ws);
                let n: usize = 9 * (a.n_geom_vars + a.n_particle_vars + a.n_airbag_vars);
                push_int_fill(buf, n, 0, ws);
                proof {
                    let s0 = seq![Word::Int(a.n_geom_vars as int)];
                    let s1 = seq![Word::Int(a.n_particle_vars as int)];
                    let s2 = seq![Word::Int(a.n_particles as int)];
                    let s3 = seq![Word::Int(a.n_airbag_vars as int)];
                    let s4 = int_fill(n as nat, 0);
                    lemma_grow(start, w, mid, s0);
                    lemma_grow(start, w, mid + s0, s1);
                    lemma_grow(start, w, mid + s0 + s1, s2);
                    lemma_grow(start, w, mid + s0 + s1 + s2, s3);
                    lemma_grow(start, w, mid + s0 + s1 + s2 + s3, s4);
                    assert(mid + s0 + s1 + s2 + s3 + s4 =~= mid + self.airbag_flag_words());
                }
            },
            None => {
                assert(mid + self.airbag_flag_words() =~= mid);
            },
        }
    }

    fn push_mesh(&self, buf: &mut Vec<u8>)
        requires
            self.wf(),
        ensures
            final(buf)@ == old(buf)@ + encode(self.wordsize as nat, self.mesh_words()),
    {
        let ghost start = buf@;
        let ws: usize = self.wordsize;
        let ghost w = ws as nat;
        push_word_fs(buf, self.x0.as_slice(), ws);
        push_rows(buf, &self.solids, ws);
        push_rows(buf, &self.tshells, ws);
        push_rows(buf, &self.beams, ws);
        push_rows(buf, &self.shells, ws);
        proof {
            let s0 = floats(self.x0@);
            let s1 = rows(self.solids@);
            let s2 = rows(self.tshells@);
            let s3 = rows(self.beams@);
            let s4 = rows(self.shells@);
            lemma_grow(start, w, s0, s1);
            lemma_grow(start, w, s0 + s1, s2);
            lemma_grow(start, w, s0 + s1 + s2, s3);
            lemma_grow(start, w, s0 + s1 + s2 + s3, s4);
        }
    }

    fn push_numbering(&self, buf: &mut Vec<u8>)
        requires
            self.wf(),
            self.countable(),
        ensures
            final(buf)@ == old(buf)@ + encode(self.wordsize as nat, self.narbs_words()),
    {
        let n: Numbering = self.count_numbering();
        let ids: UserIds<'_> = UserIds {
            nodes: self.node_ids.as_ref(),
            solids: self.solid_ids.as_ref(),
            beams: self.beam_ids.as_ref(),
            shells: self.shell_ids.as_ref(),
            tshells: self.tshell_ids.as_ref(),
            parts: self.part_ids.as_ref(),
        };
        let _words: usize = write_narbs(buf, &n, &ids, self.wordsize);
    }

    fn push_bodies(&self, buf: &mut Vec<u8>)
        requires
            self.wf(),
        ensures
            final(buf)@ == old(buf)@ + encode(self.wordsize as nat, self.rigid_body_words()),
    {
        let ghost start = buf@;
        let ws: usize = self.wordsize;
        let ghost w = ws as nat;
        proof {
            lemma_grow_none(start, w);
        }
        if let Some(rb) = &self.rigid_bodies {
            push_word_u(buf, rb.bodies.len() as u64, ws);
            let ghost head = seq![Word::Int(rb.bodies@.len() as int)];
            let ghost s = rb.bodies@;
            assert(head + bodies_words(s.take(0)) =~= head);
            for i in 0..rb.bodies.len()
                invariant
                    is_word_size(ws as int),
                    w == ws as nat,
                    s == rb.bodies@,
                    buf@ == start + encode(w, head + bodies_words(s.take(i as int))),
            {
                proof {
                    lemma_grow(
                        start,
                        w,
                        head + bodies_words(s.take(i as int)),
                        body_words(s[i as int]),
                    );
                    assert(s.take(i + 1).drop_last() =~= s.take(i as int));
                    assert(head + bodies_words(s.take(i as int)) + body_words(s[i as int]) =~= head
                        + bodies_words(s.take(i + 1)));
                }
                push_body(buf, &rb.bodies[i], ws);
            }
            assert(s.take(s.len() as int) =~= s);
        }
    }

    fn push_particles(&self, buf: &mut Vec<u8>)
        requires
            self.wf(),
        ensures
            final(buf)@ == old(buf)@ + encode(self.wordsize as nat, self.sph_node_words()),
    {
        let ghost start = buf@;
        let ws: usize = self.wordsize;
        let ghost w = ws as nat;
        proof {
            lemma_grow_none(start, w);
        }
        if let Some(s) = &self.sph {
            let ghost m = s.materials@;
            let ghost all = particle_words(m);
            assert(all.take(0) =~= Seq::<Word>::empty());
            for i in 0..s.materials.len()
                invariant
                    is_word_size(ws as int),
                    w == ws as nat,
                    m == s.materials@,
                    all == particle_words(m),
                    buf@ == start + encode(w, all.take(2 * i)),
            {
                push_word_u(buf, i as u64 + 1, ws);
                push_word_i(buf, s.materials[i] as i64, ws);
                proof {
                    let s0 = seq![Word::Int(i + 1)];
                    let s1 = seq![Word::Int(m[i as int] as int)];
                    lemma_grow(start, w, all.take(2 * i), s0);
                    lemma_grow(start, w, all.take(2 * i) + s0, s1);
                    assert(all.take(2 * i) + s0 + s1 =~= all.take(2 * (i + 1)));
                }
            }
            assert(all.take(2 * m.len() as int) =~= all);
        }
    }

    fn push_road(&self, buf: &mut Vec<u8>)
        requires
            self.wf(),
            self.countable(),
        ensures
            final(buf)@ == old(buf)@ + encode(self.wordsize as nat, self.road_words()),
    {
        let ghost start = buf@;
        let ws: usize = self.wordsize;
        let ghost w = ws as nat;
        proof {
            lemma_grow_none(start, w);
        }
        if let Some(rr) = &self.rigid_road {
            let total: usize = count_segments(&rr.segments);
            push_word_u(buf, rr.node_ids.len() as u64, ws);
            push_word_u(buf, total as u64, ws);
            push_word_u(buf, rr.segments.len() as u64, ws);
            push_word_i(buf, 1, ws);
            push_word_is(buf, rr.node_ids.as_slice(), ws);
            push_word_fs(buf, rr.node_coords.as_slice(), ws);
            let ghost s = rr.segments@;
            let ghost h = seq![
                Word::Int(rr.node_ids@.len() as int),
                Word::Int(total as int),
                Word::Int(s.len() as int),
                Word::Int(1),
            ];
            let ghost head = h + ints(rr.node_ids@) + floats(rr.node_coords@);
            proof {
                let s0 = seq![Word::Int(rr.node_ids@.len() as int)];
                let s1 = seq![Word::Int(total as int)];
                let s2 = seq![Word::Int(s.len() as int)];
                let s3 = seq![Word::Int(1)];
                lemma_grow(start, w, s0, s1);
                lemma_grow(start, w, s0 + s1, s2);
                lemma_grow(start, w, s0 + s1 + s2, s3);
                assert(s0 + s1 + s2 + s3 =~= h);
                lemma_grow(start, w, h, ints(rr.node_ids@));
                lemma_grow(start, w, h + ints(rr.node_ids@), floats(rr.node_coords@));
                assert(head + surfaces_words(s.take(0)) =~= head);
            }
            for i in 0..rr.segments.len()
                invariant
                    is_word_size(ws as int),
                    w == ws as nat,
                    s == rr.segments@,
                    buf@ == start + encode(w, head + surfaces_words(s.take(i as int))),
            {
                proof {
                    lemma_grow(
                        start,
                        w,
                        head + surfaces_words(s.take(i as int)),
                        surface_words(s[i as int]),
                    );
                    assert(s.take(i + 1).drop_last() =~= s.take(i as int));
                    assert(head + surfaces_words(s.take(i as int)) + surface_words(s[i as int])
                        =~= head + surfaces_words(s.take(i + 1)));
                }
                push_surface(buf, &rr.segments[i], ws);
            }
            assert(s.take(s.len() as int) =~= s);
        }
    }

    fn push_geometry(&self, buf: &mut Vec<u8>)
        requires
            self.wf(),
            self.countable(),
            self.complete(),
        ensures
            final(buf)@ == old(buf)@ + encode(self.wordsize as nat, self.geometry_words()),
    {
        let ghost start = buf@;
        let ws: usize = self.wordsize;
        let ghost w = ws as nat;
        self.push_header(buf);
        self.push_flags(buf);
        self.push_mesh(buf);
        self.push_numbering(buf);
        self.push_bodies(buf);
        self.push_particles(buf);
        let ghost before = buf@;
        match &self.airbag {
            Some(a) => {
                push_word_fs(buf, a.geom.as_slice(), ws);
            },
            None => {
                proof {
                    lemma_grow_none(before, w);
                }
            },
        }
        assert(buf@ == before + encode(w, self.airbag_geometry_words()));
        self.push_road(buf);
        proof {
            let s0 = self.header_words();
            let f = self.sph_flag_words() + self.airbag_flag_words();
            let s1 = self.mesh_words();
            let s2 = self.narbs_words();
            let s3 = self.rigid_body_words();
            let s4 = self.sph_node_words();
            let s5 = self.airbag_geometry_words();
            let s6 = self.road_words();
            lemma_grow(start, w, s0, f);
            assert(s0 + f =~= s0 + self.sph_flag_words() + self.airbag_flag_words());
            let g = s0 + self.sph_flag_words() + self.airbag_flag_words();
            lemma_grow(start, w, g, s1);
            lemma_grow(start, w, g + s1, s2);
            lemma_grow(start, w, g + s1 + s2, s3);
            lemma_grow(start, w, g + s1 + s2 + s3, s4);
            lemma_grow(start, w, g + s1 + s2 + s3 + s4, s5);
            lemma_grow(start, w, g + s1 + s2 + s3 + s4 + s5, s6);
        }
    }

    fn push_globals(&self, buf: &mut Vec<u8>, si: usize)
        requires
            self.wf(),
            self.countable(),
            self.complete(),
            si < self.n_states(),
        ensures
            final(buf)@ == old(buf)@ + encode(self.wordsize as nat, self.global_words(si as int)),
    {
        let ghost start = buf@;
        let ws: usize = self.wordsize;
        let ghost w = ws as nat;
        let ghost ns = self.n_states();
        proof {
            lemma_grow_none(start, w);
        }
        if !self.globals.any() {
            return ;
        }
        let ghost sc = self.scalar_words(si as int);
        assert(sc.take(0) =~= Seq::<Word>::empty());
        for i in 0..6
            invariant
                self.wf(),
                self.complete(),
                si < self.n_states(),
                ws == self.wordsize,
                w == ws as nat,
                sc == self.scalar_words(si as int),
                buf@ == start + encode(w, sc.take(i as int)),
        {
            assert(covers(self.globals.scalars@[i as int], self.n_states(), 1));
            let v: u64 = match &self.globals.scalars[i] {
                Some(d) => d[si],
                None => 0,
            };
            proof {
                lemma_grow(start, w, sc.take(i as int), seq![Word::Float(v)]);
                assert(sc.take(i + 1) =~= sc.take(i as int) + seq![Word::Float(v)]);
            }
            push_word_f(buf, v, ws);
        }
        assert(sc.take(6) =~= sc);
        let ghost pw = if self.has_part_block() {
            self.part_words(si as int)
        } else {
            Seq::empty()
        };
        if self.globals.parts.any() || self.globals.rigid_wall.is_some() {
            let n: usize = self.part_count();
            let p = &self.globals.parts;
            proof {
                assert(7 * n <= usize::MAX) by {
                    let walls = self.wall_words();
                }
            }
            push_opt_block(buf, &p.internal_energy, si, n, 0, ws, Ghost(ns));
            push_opt_block(buf, &p.kinetic_energy, si, n, 0, ws, Ghost(ns));
            push_opt_block(buf, &p.velocity, si, 3 * n, 0, ws, Ghost(ns));
            push_opt_block(buf, &p.mass, si, n, 0, ws, Ghost(ns));
            push_opt_block(buf, &p.hourglass_energy, si, n, 0, ws, Ghost(ns));
            proof {
                let k = si as int;
                let s1 = opt_words(p.internal_energy, k, n as nat, 0);
                let s2 = opt_words(p.kinetic_energy, k, n as nat, 0);
                let s3 = opt_words(p.velocity, k, 3 * n as nat, 0);
                let s4 = opt_words(p.mass, k, n as nat, 0);
                let s5 = opt_words(p.hourglass_energy, k, n as nat, 0);
                lemma_grow(start, w, sc, s1);
                lemma_grow(start, w, sc + s1, s2);
                lemma_grow(start, w, sc + s1 + s2, s3);
                lemma_grow(start, w, sc + s1 + s2 + s3, s4);
                lemma_grow(start, w, sc + s1 + s2 + s3 + s4, s5);
                assert(sc + s1 + s2 + s3 + s4 + s5 =~= sc + pw);
            }
        } else {
            assert(sc + pw =~= sc);
        }
        assert(buf@ == start + encode(w, sc + pw));
        match &self.globals.rigid_wall {
            Some(x) => {
                push_share(buf, &x.force, si, x.n_walls, ws, Ghost(ns));
                let ghost s1 = floats(of_state(x.force@, si as int, x.n_walls as nat));
                proof {
                    lemma_grow(start, w, sc + pw, s1);
                }
                match &x.position {
                    Some(pos) => {
                        assert(x.n_walls * 4 <= usize::MAX);
                        push_share(buf, pos, si, 3 * x.n_walls, ws, Ghost(ns));
                        proof {
                            let s2 = floats(of_state(pos@, si as int, 3 * x.n_walls as nat));
                            lemma_grow(start, w, sc + pw + s1, s2);
                            assert(sc + pw + s1 + s2 =~= self.global_words(si as int));
                        }
                    },
                    None => {
                        assert(sc + pw + s1 =~= self.global_words(si as int));
                    },
                }
            },
            None => {
                assert(sc + pw =~= self.global_words(si as int));
            },
        }
    }

    fn push_thermal(&self, buf: &mut Vec<u8>, si: usize)
        requires
            self.wf(),
            self.complete(),
            si < self.n_states(),
        ensures
            final(buf)@ == old(buf)@ + encode(self.wordsize as nat, self.thermal_words(si as int)),
    {
        let ghost start = buf@;
        let ws: usize = self.wordsize;
        let ghost w = ws as nat;
        let ghost ns = self.n_states();
        let ghost k = si as int;
        let n: usize = self.numnp;
        let nodes: usize = self.x0.len();
        assert(3 * n <= usize::MAX);
        let t = &self.node_thermal;
        let ones: i64 = self.it_digit();
        let ghost s1 = if ones >= 1 {
            opt_words(t.temperature, k, self.temp_vars() * n as nat, 0)
        } else {
            Seq::empty()
        };
        let ghost s2 = if ones >= 2 {
            opt_words(t.heat_flux, k, 3 * n as nat, 0)
        } else {
            Seq::empty()
        };
        let ghost s3 = if t.mass_scaling is Some {
            opt_words(t.mass_scaling, k, n as nat, 0)
        } else {
            Seq::empty()
        };
        let ghost s4 = if t.temp_gradient is Some {
            opt_words(t.temp_gradient, k, n as nat, 0)
        } else {
            Seq::empty()
        };
        let ghost s5 = if self.has_residual() {
            opt_words(t.residual_force, k, 3 * n as nat, 0) + opt_words(
                t.residual_moment,
                k,
                3 * n as nat,
                0,
            )
        } else {
            Seq::empty()
        };
        if ones >= 1 {
            let per: usize = if ones == 3 { 3 * n } else { n };
            assert(per == self.temp_vars() * n) by {
                assert(1 * n == n);
            }
            push_opt_block(buf, &t.temperature, si, per, 0, ws, Ghost(ns));
        } else {
            proof {
                lemma_grow_none(start, w);
            }
        }
        assert(buf@ == start + encode(w, s1));
        if ones >= 2 {
            push_opt_block(buf, &t.heat_flux, si, 3 * n, 0, ws, Ghost(ns));
        } else {
            proof {
                lemma_grow_none(buf@, w);
            }
        }
        proof {
            lemma_grow(start, w, s1, s2);
        }
        if t.mass_scaling.is_some() {
            push_opt_block(buf, &t.mass_scaling, si, n, 0, ws, Ghost(ns));
        } else {
            proof {
                lemma_grow_none(buf@, w);
            }
        }
        proof {
            lemma_grow(start, w, s1 + s2, s3);
        }
        if t.temp_gradient.is_some() {
            push_opt_block(buf, &t.temp_gradient, si, n, 0, ws, Ghost(ns));
        } else {
            proof {
                lemma_grow_none(buf@, w);
            }
        }
        proof {
            lemma_grow(start, w, s1 + s2 + s3, s4);
        }
        let ghost before = buf@;
        if t.residual_force.is_some() || t.residual_moment.is_some() {
            push_opt_block(buf, &t.residual_force, si, 3 * n, 0, ws, Ghost(ns));
            push_opt_block(buf, &t.residual_moment, si, 3 * n, 0, ws, Ghost(ns));
            proof {
                lemma_grow(
                    before,
                    w,
                    opt_words(t.residual_force, k, 3 * n as nat, 0),
                    opt_words(t.residual_moment, k, 3 * n as nat, 0),
                );
            }
        } else {
            proof {
                lemma_grow_none(buf@, w);
            }
        }
        assert(buf@ == before + encode(w, s5));
        proof {
            lemma_grow(start, w, s1 + s2 + s3 + s4, s5);
        }
    }

    fn push_nodes(&self, buf: &mut Vec<u8>, si: usize)
        requires
            self.wf(),
            self.complete(),
            si < self.n_states(),
        ensures
            final(buf)@ == old(buf)@ + encode(self.wordsize as nat, self.node_words(si as int)),
    {
        let ghost start = buf@;
        let ws: usize = self.wordsize;
        let ghost w = ws as nat;
        let st: &StateData = &self.states[si];
        push_word_fs(buf, st.disp.as_slice(), ws);
        self.push_thermal(buf, si);
        push_word_fs(buf, st.vel.as_slice(), ws);
        push_word_fs(buf, st.acc.as_slice(), ws);
        proof {
            let s0 = floats(st.disp@);
            let s1 = self.thermal_words(si as int);
            let s2 = floats(st.vel@);
            lemma_grow(start, w, s0, s1);
            lemma_grow(start, w, s0 + s1, s2);
            lemma_grow(start, w, s0 + s1 + s2, floats(st.acc@));
        }
    }

    fn push_elements(&self, buf: &mut Vec<u8>, si: usize)
        requires
            self.wf(),
            self.complete(),
            si < self.n_states(),
        ensures
            final(buf)@ == old(buf)@ + encode(self.wordsize as nat, self.element_words(si as int)),
    {
        let ghost start = buf@;
        let ws: usize = self.wordsize;
        let ghost w = ws as nat;
        let ghost ns = self.n_states();
        push_results(buf, &self.solid_results, si, self.solids.len(), ws, Ghost(ns));
        push_results(buf, &self.tshell_results, si, self.tshells.len(), ws, Ghost(ns));
        push_results(buf, &self.beam_results, si, self.beams.len(), ws, Ghost(ns));
        push_results(buf, &self.shell_results, si, self.shells.len(), ws, Ghost(ns));
        proof {
            let k = si as int;
            let s0 = result_words(self.solid_results, k, self.solids@.len());
            let s1 = result_words(self.tshell_results, k, self.tshells@.len());
            let s2 = result_words(self.beam_results, k, self.beams@.len());
            let s3 = result_words(self.shell_results, k, self.shells@.len());
            lemma_grow(start, w, s0, s1);
            lemma_grow(start, w, s0 + s1, s2);
            lemma_grow(start, w, s0 + s1 + s2, s3);
        }
    }

    fn push_deletion(&self, buf: &mut Vec<u8>, si: usize)
        requires
            self.wf(),
            self.complete(),
            si < self.n_states(),
        ensures
            final(buf)@ == old(buf)@ + encode(
                self.wordsize as nat,
                self.deletion_state_words(si as int),
            ),
    {
        let ghost start = buf@;
        let ws: usize = self.wordsize;
        let ghost w = ws as nat;
        let ghost ns = self.n_states();
        match &self.deletion {
            None => {
                proof {
                    lemma_grow_none(start, w);
                }
            },
            Some(Deletion::Node(d)) => {
                push_share(buf, d, si, self.numnp, ws, Ghost(ns));
            },
            Some(Deletion::Element { solid, tshell, shell, beam }) => {
                push_opt_block(buf, solid, si, self.solids.len(), ALIVE, ws, Ghost(ns));
                push_opt_block(buf, tshell, si, self.tshells.len(), ALIVE, ws, Ghost(ns));
                push_opt_block(buf, shell, si, self.shells.len(), ALIVE, ws, Ghost(ns));
                push_opt_block(buf, beam, si, self.beams.len(), ALIVE, ws, Ghost(ns));
                proof {
                    let k = si as int;
                    let s0 = opt_words(*solid, k, self.solids@.len(), ALIVE);
                    let s1 = opt_words(*tshell, k, self.tshells@.len(), ALIVE);
                    let s2 = opt_words(*shell, k, self.shells@.len(), ALIVE);
                    let s3 = opt_words(*beam, k, self.beams@.len(), ALIVE);
                    lemma_grow(start, w, s0, s1);
                    lemma_grow(start, w, s0 + s1, s2);
                    lemma_grow(start, w, s0 + s1 + s2, s3);
                }
            },
        }
    }

    fn push_sph(&self, buf: &mut Vec<u8>, si: usize)
        requires
            self.wf(),
            self.complete(),
            si < self.n_states(),
        ensures
            final(buf)@ == old(buf)@ + encode(self.wordsize as nat, self.sph_state_words(si as int)),
    {
        let ws: usize = self.wordsize;
        let ghost ns = self.n_states();
        match &self.sph {
            None => {
                proof {
                    lemma_grow_none(buf@, ws as nat);
                }
            },
            Some(s) => {
                let len: usize = s.results.len();
                proof {
                    lemma_share(si as int, ns, s.materials@.len() * (s.n_vars as nat), len as nat);
                }
                let per: usize = s.materials.len() * s.n_vars;
                push_share(buf, &s.results, si, per, ws, Ghost(ns));
            },
        }
    }

    fn push_airbag(&self, buf: &mut Vec<u8>, si: usize)
        requires
            self.wf(),
            self.complete(),
            si < self.n_states(),
        ensures
            final(buf)@ == old(buf)@ + encode(
                self.wordsize as nat,
                self.airbag_state_words(si as int),
            ),
    {
        let ghost start = buf@;
        let ws: usize = self.wordsize;
        let ghost ns = self.n_states();
        match &self.airbag {
            None => {
                proof {
                    lemma_grow_none(buf@, ws as nat);
                }
            },
            Some(a) => {
                let len_a: usize = a.airbag_state.len();
                let len_p: usize = a.particle_state.len();
                let ghost pa = a.n_airbags as nat * a.n_airbag_vars as nat;
                let ghost pp = a.n_particles as nat * a.n_particle_vars as nat;
                proof {
                    lemma_share(si as int, ns, pa, len_a as nat);
                    lemma_share(si as int, ns, pp, len_p as nat);
                }
                let per_a: usize = a.n_airbags * a.n_airbag_vars;
                let per_p: usize = a.n_particles * a.n_particle_vars;
                push_share(buf, &a.airbag_state, si, per_a, ws, Ghost(ns));
                push_share(buf, &a.particle_state, si, per_p, ws, Ghost(ns));
                proof {
                    lemma_grow(
                        start,
                        ws as nat,
                        floats(of_state(a.airbag_state@, si as int, pa)),
                        floats(of_state(a.particle_state@, si as int, pp)),
                    );
                }
            },
        }
    }

    fn push_rigid_motion(&self, buf: &mut Vec<u8>, si: usize)
        requires
            self.wf(),
            self.complete(),
            si < self.n_states(),
        ensures
            final(buf)@ == old(buf)@ + encode(
                self.wordsize as nat,
                self.road_state_words(si as int) + self.body_state_words(si as int),
            ),
    {
        let ghost start = buf@;
        let ws: usize = self.wordsize;
        let ghost w = ws as nat;
        let ghost ns = self.n_states();
        match &self.rigid_road {
            None => {
                proof {
                    lemma_grow_none(start, w);
                }
            },
            Some(r) => {
                let len: usize = r.motion.len();
                proof {
                    lemma_share(si as int, ns, 6 * r.segments@.len(), len as nat);
                }
                let per: usize = 6 * r.segments.len();
                push_share(buf, &r.motion, si, per, ws, Ghost(ns));
            },
        }
        let ghost mid = buf@;
        assert(mid == start + encode(w, self.road_state_words(si as int)));
        match &self.rigid_bodies {
            None => {
                proof {
                    lemma_grow_none(mid, w);
                }
            },
            Some(b) => {
                let len: usize = b.motion.len();
                let width: usize = if self.rigid_road.is_some() { 12 } else { 24 };
                proof {
                    lemma_share(si as int, ns, self.rigid_width() * b.bodies@.len(), len as nat);
                }
                let per: usize = width * b.bodies.len();
                push_share(buf, &b.motion, si, per, ws, Ghost(ns));
            },
        }
        proof {
            lemma_grow(start, w, self.road_state_words(si as int), self.body_state_words(si as int));
        }
    }

    fn push_state(&self, buf: &mut Vec<u8>, si: usize)
        requires
            self.wf(),
            self.countable(),
            self.complete(),
            si < self.n_states(),
        ensures
            final(buf)@ == old(buf)@ + encode(self.wordsize as nat, self.state_words(si as int)),
    {
        let ghost start = buf@;
        let ws: usize = self.wordsize;
        let ghost w = ws as nat;
        let ghost k = si as int;
        push_word_f(buf, self.states[si].time, ws);
        self.push_globals(buf, si);
        self.push_nodes(buf, si);
        self.push_elements(buf, si);
        self.push_deletion(buf, si);
        self.push_sph(buf, si);
        self.push_airbag(buf, si);
        self.push_rigid_motion(buf, si);
        proof {
            let s0 = seq![Word::Float(self.states@[k].time)];
            let s1 = self.global_words(k);
            let s2 = self.node_words(k);
            let s3 = self.element_words(k);
            let s4 = self.deletion_state_words(k);
            let s5 = self.sph_state_words(k);
            let s6 = self.airbag_state_words(k);
            let s7 = self.road_state_words(k);
            let s8 = self.body_state_words(k);
            lemma_grow(start, w, s0, s1);
            lemma_grow(start, w, s0 + s1, s2);
            lemma_grow(start, w, s0 + s1 + s2, s3);
            lemma_grow(start, w, s0 + s1 + s2 + s3, s4);
            lemma_grow(start, w, s0 + s1 + s2 + s3 + s4, s5);
            lemma_grow(start, w, s0 + s1 + s2 + s3 + s4 + s5, s6);
            lemma_grow(start, w, s0 + s1 + s2 + s3 + s4 + s5 + s6, s7 + s8);
            assert(s0 + s1 + s2 + s3 + s4 + s5 + s6 + (s7 + s8) =~= self.state_words(k));
        }
    }

    /// The complete bytes of the database: title, header, geometry, states and
    /// the end marker.
    pub fn to_bytes(&self) -> (r: Vec<u8>)
        requires
            self.wf(),
            self.countable(),
            self.complete(),
        ensures
            r@ == self.image(),
    {
        let ws: usize = self.wordsize;
        let ghost w = ws as nat;
        let mut buf: Vec<u8> = Vec::new();
        self.push_title(&mut buf);
        let ghost title = self.title_image();
        assert(buf@ =~= title);
        self.push_geometry(&mut buf);
        let ghost g = self.geometry_words();
        assert(g + self.states_words(0) =~= g);
        for si in 0..self.states.len()
            invariant
                self.wf(),
                self.countable(),
                self.complete(),
                w == self.wordsize as nat,
                g == self.geometry_words(),
                buf@ == title + encode(w, g + self.states_words(si as nat)),
        {
            self.push_state(&mut buf, si);
            proof {
                lemma_grow(
                    title,
                    w,
                    g + self.states_words(si as nat),
                    self.state_words(si as int),
                );
                assert(g + self.states_words(si as nat) + self.state_words(si as int) =~= g
                    + self.states_words((si + 1) as nat));
            }
        }
        push_word_f(&mut buf, EOF_MARKER, ws);
        proof {
            lemma_grow(title, w, g + self.states_words(self.n_states()), seq![
                Word::Float(EOF_MARKER),
            ]);
        }
        buf
    }
}

fn count_segments(s: &Vec<(i32, Vec<i32>)>) -> (r: usize)
    requires
        total_segments(s@) <= usize::MAX,
    ensures
        r == total_segments(s@),
{
    let mut n: usize = 0;
    for i in 0..s.len()
        invariant
            total_segments(s@) <= usize::MAX,
            n == total_segments(s@.take(i as int)),
    {
        proof {
            lemma_segments_grow(s@, i + 1);
            assert(s@.take(i + 1).drop_last() =~= s@.take(i as int));
        }
        n = n + s[i].1.len() / 4;
    }
    assert(s@.take(s@.len() as int) =~= s@);
    n
}

proof fn lemma_segments_grow(s: Seq<(i32, Vec<i32>)>, i: int)
    requires
        0 <= i <= s.len(),
    ensures
        total_segments(s.take(i)) <= total_segments(s),
    decreases s.len(),
{
    if i < s.len() {
        lemma_segments_grow(s.drop_last(), i);
        assert(s.drop_last().take(i) =~= s.take(i));
    } else {
        assert(s.take(i) =~= s);
    }
}

} // verus!
