//! Building a database: the mesh, the states, and the optional result arrays.

use crate::d3plot::block::ResultBlock;
use crate::d3plot::words::is_word_size;
use crate::d3plot::{D3plotError, GlobalField, NodeField, PartField, StateBlock};
use crate::le::{narrow_i32, wrap_i32};
use crate::text::{dec, push_dec};
use vstd::prelude::*;

verus! {

/// Which optional nodal arrays each state carries.
#[derive(Debug, Clone, Copy, PartialEq, Eq, Structural)]
pub struct NodeFields {
    pub velocity: bool,
    pub acceleration: bool,
}

/// Per-part fields, stored after the global scalars. Each has one value per state
/// and part, the velocity three. Any one of them brings in the whole block.
pub struct PartBlock {
    pub internal_energy: Option<Vec<u64>>,
    pub kinetic_energy: Option<Vec<u64>>,
    pub velocity: Option<Vec<u64>>,
    pub mass: Option<Vec<u64>>,
    pub hourglass_energy: Option<Vec<u64>>,
}

impl PartBlock {
    pub open spec fn some(self) -> bool {
        self.internal_energy is Some || self.kinetic_energy is Some || self.velocity is Some
            || self.mass is Some || self.hourglass_energy is Some
    }

    pub fn any(&self) -> (r: bool)
        ensures
            r == self.some(),
    {
        self.internal_energy.is_some() || self.kinetic_energy.is_some() || self.velocity.is_some()
            || self.mass.is_some() || self.hourglass_energy.is_some()
    }
}

/// Rigid-wall data: one force per state and wall, and optionally three position
/// values per state and wall.
pub struct RigidWall {
    pub n_walls: usize,
    pub force: Vec<u64>,
    pub position: Option<Vec<u64>>,
}

impl RigidWall {
    /// Words of all walls in a state: four per wall with positions, else one.
    pub open spec fn words(self) -> nat {
        if self.position is Some {
            4 * self.n_walls as nat
        } else {
            self.n_walls as nat
        }
    }
}

/// Whole-model scalars (in the order of `GlobalField`), the per-part block and
/// the rigid walls. Any scalar brings in all six.
pub struct Globals {
    pub scalars: Vec<Option<Vec<u64>>>,
    pub parts: PartBlock,
    pub rigid_wall: Option<RigidWall>,
}

impl Globals {
    pub open spec fn some_scalar(self) -> bool {
        exists|i: int| 0 <= i < self.scalars@.len() && (#[trigger] self.scalars@[i]) is Some
    }

    pub open spec fn some(self) -> bool {
        self.some_scalar() || self.parts.some() || self.rigid_wall is Some
    }

    pub fn any_scalar(&self) -> (r: bool)
        ensures
            r == self.some_scalar(),
    {
        for i in 0..self.scalars.len()
            invariant
                forall|j: int| 0 <= j < i ==> (#[trigger] self.scalars@[j]) is None,
        {
            if self.scalars[i].is_some() {
                return true;
            }
        }
        false
    }

    pub fn any(&self) -> (r: bool)
        ensures
            r == self.some(),
    {
        self.any_scalar() || self.parts.any() || self.rigid_wall.is_some()
    }
}

/// Per-node thermal and auxiliary fields, stored between displacement and
/// velocity.
pub struct NodeThermal {
    /// One value per state and node, or three layers.
    pub temperature: Option<Vec<u64>>,
    pub heat_flux: Option<Vec<u64>>,
    pub mass_scaling: Option<Vec<u64>>,
    pub temp_gradient: Option<Vec<u64>>,
    pub residual_force: Option<Vec<u64>>,
    pub residual_moment: Option<Vec<u64>>,
}

/// Deletion flags: of nodes, or of elements by family (families without flags are
/// written as alive).
pub enum Deletion {
    Node(Vec<u64>),
    Element {
        solid: Option<Vec<u64>>,
        tshell: Option<Vec<u64>>,
        shell: Option<Vec<u64>>,
        beam: Option<Vec<u64>>,
    },
}

/// SPH particles: a material each, and `n_vars` values per state and particle.
pub struct Sph {
    pub materials: Vec<i32>,
    pub n_vars: usize,
    pub results: Vec<u64>,
}

/// Airbags and their particles.
pub struct Airbag {
    pub n_airbags: usize,
    pub n_particles: usize,
    pub n_geom_vars: usize,
    pub n_airbag_vars: usize,
    pub n_particle_vars: usize,
    pub geom: Vec<u64>,
    pub airbag_state: Vec<u64>,
    pub particle_state: Vec<u64>,
}

/// A rigid body: its part, all its nodes, and its active nodes.
pub struct RigidBody {
    pub part: i32,
    pub nodes: Vec<i32>,
    pub active_nodes: Vec<i32>,
}

/// Rigid bodies and their motion: 12 values per state and body when there is a
/// rigid road too, else 24.
pub struct RigidBodies {
    pub bodies: Vec<RigidBody>,
    pub motion: Vec<u64>,
}

/// Rigid road surfaces (an id and four node ids per segment) and their motion,
/// six values per state and surface.
pub struct RigidRoad {
    pub node_ids: Vec<i32>,
    pub node_coords: Vec<u64>,
    pub segments: Vec<(i32, Vec<i32>)>,
    pub motion: Vec<u64>,
}

/// One state: its time, deformed coordinates, and velocities and accelerations or
/// nothing.
pub struct StateData {
    pub time: u64,
    pub disp: Vec<u64>,
    pub vel: Vec<u64>,
    pub acc: Vec<u64>,
}

/// Builds a database from a mesh and per-state results. Which header flags and
/// which state layout are written follows from the arrays that were set.
pub struct D3plotWriter {
    pub numnp: usize,
    /// 4 (single precision, the default) or 8 (double).
    pub wordsize: usize,
    pub x0: Vec<u64>,
    /// Eight one-based node numbers and the part.
    pub solids: Vec<[i32; 9]>,
    pub tshells: Vec<[i32; 9]>,
    /// Five connectivity slots and the part.
    pub beams: Vec<[i32; 6]>,
    /// Four node numbers and the part.
    pub shells: Vec<[i32; 5]>,
    pub states: Vec<StateData>,
    pub fields: NodeFields,
    pub title: String,
    pub node_ids: Option<Vec<i32>>,
    pub solid_ids: Option<Vec<i32>>,
    pub beam_ids: Option<Vec<i32>>,
    pub shell_ids: Option<Vec<i32>>,
    pub tshell_ids: Option<Vec<i32>>,
    pub part_ids: Option<Vec<i32>>,
    /// Values per element, and the values of all states.
    pub solid_results: Option<(usize, Vec<u64>)>,
    pub tshell_results: Option<(usize, Vec<u64>)>,
    pub beam_results: Option<(usize, Vec<u64>)>,
    pub shell_results: Option<(usize, Vec<u64>)>,
    pub shell_layers: usize,
    pub globals: Globals,
    pub node_thermal: NodeThermal,
    pub deletion: Option<Deletion>,
    pub sph: Option<Sph>,
    pub airbag: Option<Airbag>,
    pub rigid_bodies: Option<RigidBodies>,
    pub rigid_road: Option<RigidRoad>,
}

/// `ids`, each wrapped into 32 bits.
pub open spec fn narrowed_ids(ids: Seq<i64>) -> Seq<i32> {
    Seq::new(ids.len(), |i: int| wrap_i32(ids[i] as int) as i32)
}

/// Wraps each id into 32 bits.
pub fn narrow_ids(ids: &Vec<i64>) -> (r: Vec<i32>)
    ensures
        r@ == narrowed_ids(ids@),
{
    let mut out: Vec<i32> = Vec::new();
    for i in 0..ids.len()
        invariant
            out@ == narrowed_ids(ids@.take(i as int)),
    {
        out.push(narrow_i32(ids[i]));
        assert(out@ =~= narrowed_ids(ids@.take(i + 1)));
    }
    assert(ids@.take(ids@.len() as int) =~= ids@);
    out
}

/// The largest of the numbers, or 0 when none is positive.
pub open spec fn max_of(s: Seq<int>) -> nat
    decreases s.len(),
{
    if s.len() == 0 {
        0
    } else if s.last() > max_of(s.drop_last()) {
        s.last() as nat
    } else {
        max_of(s.drop_last())
    }
}

pub open spec fn max2(a: nat, b: nat) -> nat {
    if a >= b {
        a
    } else {
        b
    }
}

pub open spec fn parts9(s: Seq<[i32; 9]>) -> Seq<int> {
    Seq::new(s.len(), |i: int| s[i]@[8] as int)
}

pub open spec fn parts6(s: Seq<[i32; 6]>) -> Seq<int> {
    Seq::new(s.len(), |i: int| s[i]@[5] as int)
}

pub open spec fn parts5(s: Seq<[i32; 5]>) -> Seq<int> {
    Seq::new(s.len(), |i: int| s[i]@[4] as int)
}

pub open spec fn body_parts(s: Seq<RigidBody>) -> Seq<int> {
    Seq::new(s.len(), |i: int| s[i].part as int)
}

fn larger(a: i32, b: i32) -> (r: i32)
    ensures
        r == (if a >= b {
            a
        } else {
            b
        }),
{
    if a >= b {
        a
    } else {
        b
    }
}

proof fn lemma_max_take(s: Seq<int>, i: int)
    requires
        0 <= i < s.len(),
    ensures
        max_of(s.take(i + 1)) == (if s[i] > max_of(s.take(i)) {
            s[i] as nat
        } else {
            max_of(s.take(i))
        }),
{
    assert(s.take(i + 1).drop_last() =~= s.take(i));
}

fn max_part9(s: &Vec<[i32; 9]>) -> (r: i32)
    ensures
        r == max_of(parts9(s@)),
{
    let mut m: i32 = 0;
    let ghost p = parts9(s@);
    for i in 0..s.len()
        invariant
            p == parts9(s@),
            m == max_of(p.take(i as int)),
    {
        proof {
            lemma_max_take(p, i as int);
        }
        m = larger(m, s[i][8]);
    }
    assert(p.take(p.len() as int) =~= p);
    m
}

fn max_part6(s: &Vec<[i32; 6]>) -> (r: i32)
    ensures
        r == max_of(parts6(s@)),
{
    let mut m: i32 = 0;
    let ghost p = parts6(s@);
    for i in 0..s.len()
        invariant
            p == parts6(s@),
            m == max_of(p.take(i as int)),
    {
        proof {
            lemma_max_take(p, i as int);
        }
        m = larger(m, s[i][5]);
    }
    assert(p.take(p.len() as int) =~= p);
    m
}

fn max_part5(s: &Vec<[i32; 5]>) -> (r: i32)
    ensures
        r == max_of(parts5(s@)),
{
    let mut m: i32 = 0;
    let ghost p = parts5(s@);
    for i in 0..s.len()
        invariant
            p == parts5(s@),
            m == max_of(p.take(i as int)),
    {
        proof {
            lemma_max_take(p, i as int);
        }
        m = larger(m, s[i][4]);
    }
    assert(p.take(p.len() as int) =~= p);
    m
}

fn max_body_part(s: &Vec<RigidBody>) -> (r: i32)
    ensures
        r == max_of(body_parts(s@)),
{
    let mut m: i32 = 0;
    let ghost p = body_parts(s@);
    for i in 0..s.len()
        invariant
            p == body_parts(s@),
            m == max_of(p.take(i as int)),
    {
        proof {
            lemma_max_take(p, i as int);
        }
        m = larger(m, s[i].part);
    }
    assert(p.take(p.len() as int) =~= p);
    m
}

impl D3plotWriter {
    /// The coordinates are those of the nodes, and every state has the arrays
    /// that the first one fixed.
    pub open spec fn wf(self) -> bool {
        &&& is_word_size(self.wordsize as int)
        &&& self.numnp >= 1
        &&& self.x0@.len() == 3 * self.numnp
        &&& self.shell_layers >= 1
        &&& self.globals.scalars@.len() == 6
        &&& forall|i: int|
            0 <= i < self.states@.len() ==> {
                let st = #[trigger] self.states@[i];
                &&& st.disp@.len() == 3 * self.numnp
                &&& st.vel@.len() == (if self.fields.velocity {
                    3 * self.numnp as int
                } else {
                    0
                })
                &&& st.acc@.len() == (if self.fields.acceleration {
                    3 * self.numnp as int
                } else {
                    0
                })
            }
    }

    /// Starts from the initial node coordinates, three per node.
    pub fn new(node_coords: Vec<u64>) -> (r: Result<Self, D3plotError>)
        ensures
            r is Ok <==> node_coords@.len() > 0 && node_coords@.len() % 3 == 0,
            r matches Err(e) ==> e.says("node_coords length must be a non-zero multiple of 3"@),
            r matches Ok(w) ==> {
                &&& w.wf()
                &&& w.x0 == node_coords
                &&& w.numnp == node_coords@.len() / 3
                &&& w.wordsize == 4
                &&& w.solids@.len() == 0
                &&& w.tshells@.len() == 0
                &&& w.beams@.len() == 0
                &&& w.shells@.len() == 0
                &&& w.states@.len() == 0
                &&& w.fields == (NodeFields { velocity: false, acceleration: false })
                &&& w.title@.len() == 0
                &&& w.node_ids is None
                &&& w.solid_ids is None
                &&& w.beam_ids is None
                &&& w.shell_ids is None
                &&& w.tshell_ids is None
                &&& w.part_ids is None
                &&& w.solid_results is None
                &&& w.tshell_results is None
                &&& w.beam_results is None
                &&& w.shell_results is None
                &&& w.shell_layers == 1
                &&& !w.globals.some()
                &&& w.node_thermal == no_thermal()
                &&& w.deletion is None
                &&& w.sph is None
                &&& w.airbag is None
                &&& w.rigid_bodies is None
                &&& w.rigid_road is None
            },
    {
        if node_coords.len() == 0 || node_coords.len() % 3 != 0 {
            return Err(
                D3plotError::Unsupported(
                    String::from_str("node_coords length must be a non-zero multiple of 3"),
                ),
            );
        }
        let mut scalars: Vec<Option<Vec<u64>>> = Vec::new();
        scalars.push(None);
        scalars.push(None);
        scalars.push(None);
        scalars.push(None);
        scalars.push(None);
        scalars.push(None);
        let w = D3plotWriter {
            numnp: node_coords.len() / 3,
            wordsize: 4,
            x0: node_coords,
            solids: Vec::new(),
            tshells: Vec::new(),
            beams: Vec::new(),
            shells: Vec::new(),
            states: Vec::new(),
            fields: NodeFields { velocity: false, acceleration: false },
            title: String::new(),
            node_ids: None,
            solid_ids: None,
            beam_ids: None,
            shell_ids: None,
            tshell_ids: None,
            part_ids: None,
            solid_results: None,
            tshell_results: None,
            beam_results: None,
            shell_results: None,
            shell_layers: 1,
            globals: Globals {
                scalars,
                parts: PartBlock {
                    internal_energy: None,
                    kinetic_energy: None,
                    velocity: None,
                    mass: None,
                    hourglass_energy: None,
                },
                rigid_wall: None,
            },
            node_thermal: NodeThermal {
                temperature: None,
                heat_flux: None,
                mass_scaling: None,
                temp_gradient: None,
                residual_force: None,
                residual_moment: None,
            },
            deletion: None,
            sph: None,
            airbag: None,
            rigid_bodies: None,
            rigid_road: None,
        };
        Ok(w)
    }

    pub fn num_nodes(&self) -> (r: usize)
        ensures
            r == self.numnp,
    {
        self.numnp
    }

    /// Selects double-precision (8-byte word) or single-precision output.
    pub fn set_double_precision(&mut self, double: bool)
        ensures
            *final(self) == (D3plotWriter {
                wordsize: if double {
                    8
                } else {
                    4
                },
                ..*old(self)
            }),
    {
        self.wordsize = if double { 8 } else { 4 };
    }

    /// Sets the run title, of which the first ten words are kept.
    pub fn set_title(&mut self, title: &str)
        ensures
            final(self).title@ == title@,
            *final(self) == (D3plotWriter { title: final(self).title, ..*old(self) }),
    {
        self.title = String::from_str(title);
    }

    /// User node ids for the numbering section, wrapped into 32 bits.
    pub fn set_node_ids(&mut self, ids: Vec<i64>)
        ensures
            final(self).node_ids matches Some(v) && v@ == narrowed_ids(ids@),
            *final(self) == (D3plotWriter { node_ids: final(self).node_ids, ..*old(self) }),
    {
        self.node_ids = Some(narrow_ids(&ids));
    }

    /// User shell ids.
    pub fn set_shell_ids(&mut self, ids: Vec<i64>)
        ensures
            final(self).shell_ids matches Some(v) && v@ == narrowed_ids(ids@),
            *final(self) == (D3plotWriter { shell_ids: final(self).shell_ids, ..*old(self) }),
    {
        self.shell_ids = Some(narrow_ids(&ids));
    }

    /// User solid ids.
    pub fn set_solid_ids(&mut self, ids: Vec<i64>)
        ensures
            final(self).solid_ids matches Some(v) && v@ == narrowed_ids(ids@),
            *final(self) == (D3plotWriter { solid_ids: final(self).solid_ids, ..*old(self) }),
    {
        self.solid_ids = Some(narrow_ids(&ids));
    }

    /// User part ids.
    pub fn set_part_ids(&mut self, ids: Vec<i64>)
        ensures
            final(self).part_ids matches Some(v) && v@ == narrowed_ids(ids@),
            *final(self) == (D3plotWriter { part_ids: final(self).part_ids, ..*old(self) }),
    {
        self.part_ids = Some(narrow_ids(&ids));
    }

    /// User beam ids.
    pub fn set_beam_ids(&mut self, ids: Vec<i64>)
        ensures
            final(self).beam_ids matches Some(v) && v@ == narrowed_ids(ids@),
            *final(self) == (D3plotWriter { beam_ids: final(self).beam_ids, ..*old(self) }),
    {
        self.beam_ids = Some(narrow_ids(&ids));
    }

    /// User thick-shell ids.
    pub fn set_tshell_ids(&mut self, ids: Vec<i64>)
        ensures
            final(self).tshell_ids matches Some(v) && v@ == narrowed_ids(ids@),
            *final(self) == (D3plotWriter { tshell_ids: final(self).tshell_ids, ..*old(self) }),
    {
        self.tshell_ids = Some(narrow_ids(&ids));
    }

    /// Results of the solids, shaped states by solids by values.
    pub fn set_solid_results(&mut self, block: ResultBlock)
        ensures
            *final(self) == with_results(*old(self), StateBlock::Solid, block),
    {
        let vars: usize = block.last_dim();
        self.solid_results = Some((vars, block.into_data()));
    }

    /// Results of the shells, shaped states by shells by values; the values pack
    /// the layers.
    pub fn set_shell_results(&mut self, block: ResultBlock)
        ensures
            *final(self) == with_results(*old(self), StateBlock::Shell, block),
    {
        let vars: usize = block.last_dim();
        self.shell_results = Some((vars, block.into_data()));
    }

    /// Results of the thick shells, shaped states by thick shells by values.
    pub fn set_tshell_results(&mut self, block: ResultBlock)
        ensures
            *final(self) == with_results(*old(self), StateBlock::ThickShell, block),
    {
        let vars: usize = block.last_dim();
        self.tshell_results = Some((vars, block.into_data()));
    }

    /// Results of the beams, shaped states by beams by values.
    pub fn set_beam_results(&mut self, block: ResultBlock)
        ensures
            *final(self) == with_results(*old(self), StateBlock::Beam, block),
    {
        let vars: usize = block.last_dim();
        self.beam_results = Some((vars, block.into_data()));
    }

    /// Number of through-thickness integration points in a shell record, at
    /// least one.
    pub fn set_shell_layers(&mut self, n_layers: usize)
        ensures
            *final(self) == (D3plotWriter {
                shell_layers: if n_layers == 0 {
                    1
                } else {
                    n_layers
                },
                ..*old(self)
            }),
    {
        self.shell_layers = if n_layers == 0 { 1 } else { n_layers };
    }

    /// Adds a shell of four one-based nodes.
    pub fn add_shell(&mut self, nodes: [i32; 4], part: i32)
        ensures
            final(self).shells@.len() == old(self).shells@.len() + 1,
            final(self).shells@.drop_last() == old(self).shells@,
            final(self).shells@.last()@ == nodes@.push(part),
            *final(self) == (D3plotWriter { shells: final(self).shells, ..*old(self) }),
    {
        let ghost before = self.shells@;
        let row: [i32; 5] = [nodes[0], nodes[1], nodes[2], nodes[3], part];
        assert(row@ =~= nodes@.push(part));
        self.shells.push(row);
        assert(self.shells@.drop_last() =~= before);
    }

    /// Adds a solid of eight one-based nodes.
    pub fn add_solid(&mut self, nodes: [i32; 8], part: i32)
        ensures
            final(self).solids@.len() == old(self).solids@.len() + 1,
            final(self).solids@.drop_last() == old(self).solids@,
            final(self).solids@.last()@ == nodes@.push(part),
            *final(self) == (D3plotWriter { solids: final(self).solids, ..*old(self) }),
    {
        let ghost before = self.solids@;
        let row: [i32; 9] = [
            nodes[0],
            nodes[1],
            nodes[2],
            nodes[3],
            nodes[4],
            nodes[5],
            nodes[6],
            nodes[7],
            part,
        ];
        assert(row@ =~= nodes@.push(part));
        self.solids.push(row);
        assert(self.solids@.drop_last() =~= before);
    }

    /// Adds a thick shell of eight one-based nodes.
    pub fn add_tshell(&mut self, nodes: [i32; 8], part: i32)
        ensures
            final(self).tshells@.len() == old(self).tshells@.len() + 1,
            final(self).tshells@.drop_last() == old(self).tshells@,
            final(self).tshells@.last()@ == nodes@.push(part),
            *final(self) == (D3plotWriter { tshells: final(self).tshells, ..*old(self) }),
    {
        let ghost before = self.tshells@;
        let row: [i32; 9] = [
            nodes[0],
            nodes[1],
            nodes[2],
            nodes[3],
            nodes[4],
            nodes[5],
            nodes[6],
            nodes[7],
            part,
        ];
        assert(row@ =~= nodes@.push(part));
        self.tshells.push(row);
        assert(self.tshells@.drop_last() =~= before);
    }

    /// Adds a beam: two end nodes and an orientation node (0 for none). The two
    /// reserved connectivity slots are 0.
    pub fn add_beam(&mut self, nodes: [i32; 3], part: i32)
        ensures
            final(self).beams@.len() == old(self).beams@.len() + 1,
            final(self).beams@.drop_last() == old(self).beams@,
            final(self).beams@.last()@ == nodes@ + seq![0i32, 0i32, part],
            *final(self) == (D3plotWriter { beams: final(self).beams, ..*old(self) }),
    {
        let ghost before = self.beams@;
        let row: [i32; 6] = [nodes[0], nodes[1], nodes[2], 0, 0, part];
        assert(row@ =~= nodes@ + seq![0i32, 0i32, part]);
        self.beams.push(row);
        assert(self.beams@.drop_last() =~= before);
    }

    /// The history of a whole-model scalar, one value per state.
    pub fn set_global_history(&mut self, field: GlobalField, data: Vec<u64>)
        requires
            old(self).globals.scalars@.len() == 6,
        ensures
            sets_global(*old(self), *final(self), field, data),
    {
        let idx: usize = match field {
            GlobalField::KineticEnergy => 0,
            GlobalField::InternalEnergy => 1,
            GlobalField::TotalEnergy => 2,
            GlobalField::VelocityX => 3,
            GlobalField::VelocityY => 4,
            GlobalField::VelocityZ => 5,
        };
        self.globals.scalars[idx] = Some(data);
    }

    /// The history of a per-part scalar, one value per state and part.
    pub fn set_part_field(&mut self, field: PartField, data: Vec<u64>)
        ensures
            *final(self) == with_part_field(*old(self), field, data),
    {
        match field {
            PartField::InternalEnergy => {
                self.globals.parts.internal_energy = Some(data);
            },
            PartField::KineticEnergy => {
                self.globals.parts.kinetic_energy = Some(data);
            },
            PartField::Mass => {
                self.globals.parts.mass = Some(data);
            },
            PartField::HourglassEnergy => {
                self.globals.parts.hourglass_energy = Some(data);
            },
        }
    }

    /// The velocities of the parts, three values per state and part.
    pub fn set_part_velocity(&mut self, data: Vec<u64>)
        ensures
            *final(self) == (D3plotWriter {
                globals: Globals {
                    parts: PartBlock { velocity: Some(data), ..old(self).globals.parts },
                    ..old(self).globals
                },
                ..*old(self)
            }),
    {
        self.globals.parts.velocity = Some(data);
    }

    /// Rigid-wall data: one force per state and wall, and optionally three
    /// position values per state and wall.
    pub fn set_rigid_walls(&mut self, n_walls: usize, force: Vec<u64>, position: Option<Vec<u64>>)
        ensures
            *final(self) == (D3plotWriter {
                globals: Globals {
                    rigid_wall: Some(RigidWall { n_walls, force, position }),
                    ..old(self).globals
                },
                ..*old(self)
            }),
    {
        self.globals.rigid_wall = Some(RigidWall { n_walls, force, position });
    }

    /// The history of an auxiliary node field. The length of the temperature
    /// decides between one value and three layers per node.
    pub fn set_node_field(&mut self, field: NodeField, data: Vec<u64>)
        ensures
            *final(self) == with_node_field(*old(self), field, data),
    {
        match field {
            NodeField::Temperature => {
                self.node_thermal.temperature = Some(data);
            },
            NodeField::HeatFlux => {
                self.node_thermal.heat_flux = Some(data);
            },
            NodeField::MassScaling => {
                self.node_thermal.mass_scaling = Some(data);
            },
            NodeField::TemperatureGradient => {
                self.node_thermal.temp_gradient = Some(data);
            },
            NodeField::ResidualForce => {
                self.node_thermal.residual_force = Some(data);
            },
            NodeField::ResidualMoment => {
                self.node_thermal.residual_moment = Some(data);
            },
        }
    }

    /// Deletion flags of one element family, one per state and element, 1 for
    /// alive. Replaces node deletion. A node block clears the deletion flags.
    pub fn set_element_deletion(&mut self, block: StateBlock, alive: Vec<u64>)
        ensures
            *final(self) == (D3plotWriter {
                deletion: with_element_deletion(old(self).deletion, block, alive),
                ..*old(self)
            }),
    {
        let (mut solid, mut tshell, mut shell, mut beam): (
            Option<Vec<u64>>,
            Option<Vec<u64>>,
            Option<Vec<u64>>,
            Option<Vec<u64>>,
        ) = match self.deletion.take() {
            Some(Deletion::Element { solid, tshell, shell, beam }) => (solid, tshell, shell, beam),
            _ => (None, None, None, None),
        };
        match block {
            StateBlock::Solid => {
                solid = Some(alive);
            },
            StateBlock::ThickShell => {
                tshell = Some(alive);
            },
            StateBlock::Shell => {
                shell = Some(alive);
            },
            StateBlock::Beam => {
                beam = Some(alive);
            },
            _ => {
                return ;
            },
        }
        self.deletion = Some(Deletion::Element { solid, tshell, shell, beam });
    }

    /// Deletion flags of the nodes, one per state and node. Replaces element
    /// deletion.
    pub fn set_node_deletion(&mut self, alive: Vec<u64>)
        ensures
            *final(self) == (D3plotWriter {
                deletion: Some(Deletion::Node(alive)),
                ..*old(self)
            }),
    {
        self.deletion = Some(Deletion::Node(alive));
    }

    /// SPH particles: a material each, and `n_vars` values per state and particle.
    pub fn set_sph(&mut self, materials: Vec<i64>, n_vars: usize, results: Vec<u64>)
        ensures
            final(self).sph matches Some(s) && s.materials@ == narrowed_ids(materials@) && s.n_vars
                == n_vars && s.results == results,
            *final(self) == (D3plotWriter { sph: final(self).sph, ..*old(self) }),
    {
        self.sph = Some(Sph { materials: narrow_ids(&materials), n_vars, results });
    }

    /// Airbags: geometry, chamber state and particle state, all row-major.
    pub fn set_airbag(
        &mut self,
        n_airbags: usize,
        n_particles: usize,
        n_geom_vars: usize,
        n_airbag_vars: usize,
        n_particle_vars: usize,
        geom: Vec<u64>,
        airbag_state: Vec<u64>,
        particle_state: Vec<u64>,
    )
        ensures
            *final(self) == (D3plotWriter {
                airbag: Some(
                    Airbag {
                        n_airbags,
                        n_particles,
                        n_geom_vars,
                        n_airbag_vars,
                        n_particle_vars,
                        geom,
                        airbag_state,
                        particle_state,
                    },
                ),
                ..*old(self)
            }),
    {
        self.airbag =
        Some(
            Airbag {
                n_airbags,
                n_particles,
                n_geom_vars,
                n_airbag_vars,
                n_particle_vars,
                geom,
                airbag_state,
                particle_state,
            },
        );
    }

    /// Rigid bodies, each a part with its nodes and active nodes, and their motion.
    pub fn set_rigid_bodies(&mut self, bodies: Vec<(i64, Vec<i64>, Vec<i64>)>, motion: Vec<u64>)
        ensures
            final(self).rigid_bodies matches Some(rb) && rb.motion == motion && rb.bodies@.len()
                == bodies@.len() && forall|i: int|
                0 <= i < bodies@.len() ==> {
                    let b = #[trigger] rb.bodies@[i];
                    &&& b.part == wrap_i32(bodies@[i].0 as int)
                    &&& b.nodes@ == narrowed_ids(bodies@[i].1@)
                    &&& b.active_nodes@ == narrowed_ids(bodies@[i].2@)
                },
            *final(self) == (D3plotWriter { rigid_bodies: final(self).rigid_bodies, ..*old(self) }),
    {
        let mut out: Vec<RigidBody> = Vec::new();
        for i in 0..bodies.len()
            invariant
                out@.len() == i,
                forall|k: int|
                    0 <= k < i ==> {
                        let b = #[trigger] out@[k];
                        &&& b.part == wrap_i32(bodies@[k].0 as int)
                        &&& b.nodes@ == narrowed_ids(bodies@[k].1@)
                        &&& b.active_nodes@ == narrowed_ids(bodies@[k].2@)
                    },
        {
            out.push(
                RigidBody {
                    part: narrow_i32(bodies[i].0),
                    nodes: narrow_ids(&bodies[i].1),
                    active_nodes: narrow_ids(&bodies[i].2),
                },
            );
        }
        self.rigid_bodies = Some(RigidBodies { bodies: out, motion });
    }

    /// Rigid road surfaces and their motion.
    pub fn set_rigid_road(
        &mut self,
        node_ids: Vec<i64>,
        node_coords: Vec<u64>,
        segments: Vec<(i64, Vec<i64>)>,
        motion: Vec<u64>,
    )
        ensures
            final(self).rigid_road matches Some(rr) && rr.node_ids@ == narrowed_ids(node_ids@)
                && rr.node_coords == node_coords && rr.motion == motion && rr.segments@.len()
                == segments@.len() && forall|i: int|
                0 <= i < segments@.len() ==> (#[trigger] rr.segments@[i]).0 == wrap_i32(
                    segments@[i].0 as int,
                ) && rr.segments@[i].1@ == narrowed_ids(segments@[i].1@),
            *final(self) == (D3plotWriter { rigid_road: final(self).rigid_road, ..*old(self) }),
    {
        let mut out: Vec<(i32, Vec<i32>)> = Vec::new();
        for i in 0..segments.len()
            invariant
                out@.len() == i,
                forall|k: int|
                    0 <= k < i ==> (#[trigger] out@[k]).0 == wrap_i32(segments@[k].0 as int)
                        && out@[k].1@ == narrowed_ids(segments@[k].1@),
        {
            out.push((narrow_i32(segments[i].0), narrow_ids(&segments[i].1)));
        }
        self.rigid_road =
        Some(RigidRoad { node_ids: narrow_ids(&node_ids), node_coords, segments: out, motion });
    }

    /// The number of parts: the largest part number of the elements and rigid
    /// bodies, or 0 when none is positive.
    pub open spec fn n_parts(self) -> nat {
        let e = max2(
            max2(max_of(parts9(self.solids@)), max_of(parts9(self.tshells@))),
            max2(max_of(parts6(self.beams@)), max_of(parts5(self.shells@))),
        );
        match self.rigid_bodies {
            Some(rb) => max2(e, max_of(body_parts(rb.bodies@))),
            None => e,
        }
    }

    /// The number of parts.
    pub fn part_count(&self) -> (r: usize)
        ensures
            r == self.n_parts(),
            r <= i32::MAX,
    {
        let a: i32 = larger(max_part9(&self.solids), max_part9(&self.tshells));
        let b: i32 = larger(max_part6(&self.beams), max_part5(&self.shells));
        let e: i32 = larger(a, b);
        let m: i32 = match &self.rigid_bodies {
            Some(rb) => larger(e, max_body_part(&rb.bodies)),
            None => e,
        };
        m as usize
    }

    /// What a length error of `add_state` says.
    pub open spec fn length_message(self, what: Seq<char>, got: nat) -> Seq<char> {
        what + " length "@ + dec(got) + " != numnp*3 ("@ + dec(3 * self.numnp as nat) + ")"@
    }

    /// The first complaint about a new state, or `None`.
    pub open spec fn state_error(
        self,
        disp: Seq<u64>,
        vel: Option<Seq<u64>>,
        acc: Option<Seq<u64>>,
    ) -> Option<Seq<char>> {
        let n = 3 * self.numnp;
        if disp.len() != n {
            Some(self.length_message("disp"@, disp.len()))
        } else if vel is Some && vel->0.len() != n {
            Some(self.length_message("vel"@, vel->0.len()))
        } else if acc is Some && acc->0.len() != n {
            Some(self.length_message("acc"@, acc->0.len()))
        } else if self.states@.len() > 0 && (vel is Some != self.fields.velocity || acc is Some
            != self.fields.acceleration) {
            Some("velocity/acceleration presence must match across states"@)
        } else {
            None
        }
    }

    fn length_error(&self, what: &str, got: usize) -> (e: D3plotError)
        requires
            3 * self.numnp <= usize::MAX,
        ensures
            e.says(self.length_message(what@, got as nat)),
    {
        let mut s: String = String::from_str(what);
        s.append(" length ");
        push_dec(&mut s, got as u64);
        s.append(" != numnp*3 (");
        push_dec(&mut s, (3 * self.numnp) as u64);
        s.append(")");
        D3plotError::Unsupported(s)
    }

    /// Appends a state: its time and deformed coordinates, and optionally
    /// velocities and accelerations, whose presence the first state fixes.
    pub fn add_state(
        &mut self,
        time: u64,
        disp: Vec<u64>,
        vel: Option<Vec<u64>>,
        acc: Option<Vec<u64>>,
    ) -> (r: Result<(), D3plotError>)
        requires
            old(self).wf(),
        ensures
            ({
                let v: Option<Seq<u64>> = match vel {
                    Some(x) => Some(x@),
                    None => None,
                };
                let a: Option<Seq<u64>> = match acc {
                    Some(x) => Some(x@),
                    None => None,
                };
                match old(self).state_error(disp@, v, a) {
                    Some(m) => r matches Err(e) && e.says(m) && *final(self) == *old(self),
                    None => {
                        &&& r is Ok
                        &&& final(self).wf()
                        &&& final(self).states@.len() == old(self).states@.len() + 1
                        &&& final(self).states@.drop_last() == old(self).states@
                        &&& ({
                            let st = final(self).states@.last();
                            &&& st.time == time
                            &&& st.disp == disp
                            &&& st.vel@ == (match v {
                                Some(x) => x,
                                None => Seq::empty(),
                            })
                            &&& st.acc@ == (match a {
                                Some(x) => x,
                                None => Seq::empty(),
                            })
                        })
                        &&& *final(self) == (D3plotWriter {
                            states: final(self).states,
                            fields: NodeFields {
                                velocity: vel is Some,
                                acceleration: acc is Some,
                            },
                            ..*old(self)
                        })
                    },
                }
            }),
    {
        let nodes: usize = self.x0.len();
        assert(nodes == 3 * self.numnp);
        let n: usize = nodes;
        if disp.len() != n {
            return Err(self.length_error("disp", disp.len()));
        }
        if let Some(v) = &vel {
            if v.len() != n {
                return Err(self.length_error("vel", v.len()));
            }
        }
        if let Some(a) = &acc {
            if a.len() != n {
                return Err(self.length_error("acc", a.len()));
            }
        }
        let given: NodeFields = NodeFields {
            velocity: vel.is_some(),
            acceleration: acc.is_some(),
        };
        if self.states.len() > 0 && (given.velocity != self.fields.velocity || given.acceleration
            != self.fields.acceleration) {
            return Err(
                D3plotError::Unsupported(
                    String::from_str("velocity/acceleration presence must match across states"),
                ),
            );
        }
        let ghost before = self.states@;
        self.fields = given;
        let vel_data: Vec<u64> = match vel {
            Some(v) => v,
            None => Vec::new(),
        };
        let acc_data: Vec<u64> = match acc {
            Some(a) => a,
            None => Vec::new(),
        };
        self.states.push(StateData { time, disp, vel: vel_data, acc: acc_data });
        proof {
            assert(self.states@.drop_last() =~= before);
            assert(vel is None ==> vel_data@ =~= Seq::<u64>::empty());
            assert(acc is None ==> acc_data@ =~= Seq::<u64>::empty());
        }
        Ok(())
    }
}

pub open spec fn no_thermal() -> NodeThermal {
    NodeThermal {
        temperature: None,
        heat_flux: None,
        mass_scaling: None,
        temp_gradient: None,
        residual_force: None,
        residual_moment: None,
    }
}

/// The position of a scalar among the global variables.
pub open spec fn global_slot(field: GlobalField) -> int {
    match field {
        GlobalField::KineticEnergy => 0,
        GlobalField::InternalEnergy => 1,
        GlobalField::TotalEnergy => 2,
        GlobalField::VelocityX => 3,
        GlobalField::VelocityY => 4,
        GlobalField::VelocityZ => 5,
    }
}

/// `b` is the writer `a` after the history of a whole-model scalar was set.
pub open spec fn sets_global(
    a: D3plotWriter,
    b: D3plotWriter,
    field: GlobalField,
    data: Vec<u64>,
) -> bool {
    &&& b.globals.scalars@ == a.globals.scalars@.update(global_slot(field), Some(data))
    &&& b == (D3plotWriter {
        globals: Globals { scalars: b.globals.scalars, ..a.globals },
        ..a
    })
}

/// The writer after the history of a per-part scalar was set.
pub open spec fn with_part_field(
    w: D3plotWriter,
    field: PartField,
    data: Vec<u64>,
) -> D3plotWriter {
    let p = w.globals.parts;
    let parts = match field {
        PartField::InternalEnergy => PartBlock { internal_energy: Some(data), ..p },
        PartField::KineticEnergy => PartBlock { kinetic_energy: Some(data), ..p },
        PartField::Mass => PartBlock { mass: Some(data), ..p },
        PartField::HourglassEnergy => PartBlock { hourglass_energy: Some(data), ..p },
    };
    D3plotWriter { globals: Globals { parts, ..w.globals }, ..w }
}

/// The writer after the history of an auxiliary node field was set.
pub open spec fn with_node_field(
    w: D3plotWriter,
    field: NodeField,
    data: Vec<u64>,
) -> D3plotWriter {
    let t = w.node_thermal;
    let node_thermal = match field {
        NodeField::Temperature => NodeThermal { temperature: Some(data), ..t },
        NodeField::HeatFlux => NodeThermal { heat_flux: Some(data), ..t },
        NodeField::MassScaling => NodeThermal { mass_scaling: Some(data), ..t },
        NodeField::TemperatureGradient => NodeThermal { temp_gradient: Some(data), ..t },
        NodeField::ResidualForce => NodeThermal { residual_force: Some(data), ..t },
        NodeField::ResidualMoment => NodeThermal { residual_moment: Some(data), ..t },
    };
    D3plotWriter { node_thermal, ..w }
}

/// The writer after the results of a family of elements were set.
pub open spec fn with_results(
    w: D3plotWriter,
    family: StateBlock,
    block: ResultBlock,
) -> D3plotWriter {
    let results = Some((block.width(), block.data));
    match family {
        StateBlock::Solid => D3plotWriter { solid_results: results, ..w },
        StateBlock::ThickShell => D3plotWriter { tshell_results: results, ..w },
        StateBlock::Beam => D3plotWriter { beam_results: results, ..w },
        StateBlock::Shell => D3plotWriter { shell_results: results, ..w },
        _ => w,
    }
}

/// The deletion flags after those of one element family were set.
pub open spec fn with_element_deletion(
    d: Option<Deletion>,
    block: StateBlock,
    alive: Vec<u64>,
) -> Option<Deletion> {
    let (solid, tshell, shell, beam) = match d {
        Some(Deletion::Element { solid, tshell, shell, beam }) => (solid, tshell, shell, beam),
        _ => (None, None, None, None),
    };
    match block {
        StateBlock::Solid => Some(
            Deletion::Element { solid: Some(alive), tshell, shell, beam },
        ),
        StateBlock::ThickShell => Some(
            Deletion::Element { solid, tshell: Some(alive), shell, beam },
        ),
        StateBlock::Shell => Some(Deletion::Element { solid, tshell, shell: Some(alive), beam }),
        StateBlock::Beam => Some(Deletion::Element { solid, tshell, shell, beam: Some(alive) }),
        _ => None,
    }
}

} // verus!
