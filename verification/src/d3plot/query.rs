//! What can be asked of a database: histories, fields, blocks, connectivity and
//! user numbers.

use crate::d3plot::block::ResultBlock;
use crate::d3plot::control::{lemma_state_terms, Control, ControlView, FILETYPE_INTFOR};
use crate::d3plot::header::control_of;
use crate::d3plot::reader::D3plot;
use crate::d3plot::writer::global_slot;
use crate::d3plot::{FsiforField, GlobalField, InterfaceField, NodeField, PartField, StateBlock};
use crate::ieee::{widen, widened};
use vstd::prelude::*;

verus! {

/// A result block of a state lies within the state.
pub proof fn lemma_block_within(v: ControlView, block: StateBlock)
    requires
        v.fits(),
        v.has_block(block),
    ensures
        ({
            let p = v.block_place(block);
            p.0 + p.1 * p.2 <= v.state_words() && p.1 * p.2 <= usize::MAX
        }),
{
    lemma_state_terms(v);
    let p = v.block_place(block);
    match block {
        StateBlock::Displacement => {
            assert(p.1 * 3 == 3 * p.1);
        },
        StateBlock::Velocity => {
            assert(p.1 * 3 == 3 * p.1);
        },
        StateBlock::Acceleration => {
            assert(p.1 * 3 == 3 * p.1);
        },
        _ => {},
    }
}

/// An auxiliary node field lies within the state.
pub proof fn lemma_field_within(v: ControlView, field: NodeField)
    requires
        v.fits(),
        v.has_node_field(field),
    ensures
        v.node_field_off(field) + v.node_field_width(field) * (v.numnp as nat) <= v.state_words(),
        v.node_field_width(field) * (v.numnp as nat) <= usize::MAX,
{
    lemma_state_terms(v);
    crate::d3plot::control::lemma_node_field_words(v);
    let n = v.numnp as nat;
    assert(1 * n == n && 3 * n == n + n + n);
    assert(v.node_field_words(field) == v.node_field_width(field) * n);
}

/// The word of a scalar among the global variables.
fn slot_of(field: GlobalField) -> (r: usize)
    ensures
        r == global_slot(field),
        r < 6,
{
    match field {
        GlobalField::KineticEnergy => 0,
        GlobalField::InternalEnergy => 1,
        GlobalField::TotalEnergy => 2,
        GlobalField::VelocityX => 3,
        GlobalField::VelocityY => 4,
        GlobalField::VelocityZ => 5,
    }
}

/// Where a per-part field starts among the global variables, for `np` parts.
pub open spec fn part_field_start(field: PartField, np: nat) -> nat {
    match field {
        PartField::InternalEnergy => 6,
        PartField::KineticEnergy => 6 + np,
        PartField::Mass => 6 + 5 * np,
        PartField::HourglassEnergy => 6 + 6 * np,
    }
}

/// Number of elements of a family that carry deletion flags.
pub open spec fn alive_count(v: ControlView, block: StateBlock) -> nat {
    match block {
        StateBlock::Solid => v.nel8,
        StateBlock::ThickShell => v.nelth,
        StateBlock::Shell => v.n_shells_with_data(),
        StateBlock::Beam => v.nel2,
        _ => 0,
    }
}

/// Number of deletion flags before those of a family. The order is solid, thick
/// shell, shell, beam.
pub open spec fn alive_before(v: ControlView, block: StateBlock) -> nat {
    match block {
        StateBlock::Solid => 0,
        StateBlock::ThickShell => v.nel8,
        StateBlock::Shell => v.nel8 + v.nelth,
        StateBlock::Beam => v.nel8 + v.nelth + v.n_shells_with_data(),
        _ => 0,
    }
}

/// Airbag chamber and particle states of one state, each with its rows and
/// columns.
#[derive(Debug)]
pub struct AirbagState {
    pub airbag: Vec<u64>,
    pub airbag_dims: [usize; 2],
    pub particle: Vec<u64>,
    pub particle_dims: [usize; 2],
}

/// How the segment records of an interface-force file split.
#[derive(Debug, Clone, Copy, PartialEq, Eq, Structural)]
pub struct InterfaceFields {
    pub wear: usize,
    pub pressure: usize,
    pub shear: usize,
    pub force: usize,
    pub gap: usize,
}

/// A result block in the precision of the file.
#[derive(Debug)]
pub enum BlockArray {
    F32(Vec<u32>),
    F64(Vec<u64>),
}

impl BlockArray {
    /// The values as doubles.
    pub open spec fn doubles(self) -> Seq<u64> {
        match self {
            BlockArray::F32(v) => Seq::new(v@.len(), |i: int| widened(v@[i]) as u64),
            BlockArray::F64(v) => v@,
        }
    }

    /// The values as doubles.
    pub fn to_f64(&self) -> (r: Vec<u64>)
        ensures
            r@ == self.doubles(),
    {
        match self {
            BlockArray::F32(v) => {
                let mut out: Vec<u64> = Vec::new();
                for i in 0..v.len()
                    invariant
                        out@.len() == i,
                        forall|k: int| 0 <= k < i ==> out@[k] == widened(v@[k]) as u64,
                {
                    out.push(widen(v[i]));
                }
                assert(out@ =~= self.doubles());
                out
            },
            BlockArray::F64(v) => {
                let mut out: Vec<u64> = Vec::new();
                out.extend_from_slice(v.as_slice());
                assert(out@ =~= v@);
                out
            },
        }
    }

    /// Number of values.
    pub fn len(&self) -> (r: usize)
        ensures
            r == self.doubles().len(),
    {
        match self {
            BlockArray::F32(v) => v.len(),
            BlockArray::F64(v) => v.len(),
        }
    }

    pub fn is_empty(&self) -> (r: bool)
        ensures
            r == (self.doubles().len() == 0),
    {
        self.len() == 0
    }
}

/// Labels of a vector: `x`, `y`, `z`.
pub open spec fn is_xyz(s: Seq<String>) -> bool {
    s.len() == 3 && s[0]@ == "x"@ && s[1]@ == "y"@ && s[2]@ == "z"@
}

fn xyz() -> (r: Vec<String>)
    ensures
        is_xyz(r@),
{
    let mut v: Vec<String> = Vec::new();
    v.push(String::from_str("x"));
    v.push(String::from_str("y"));
    v.push(String::from_str("z"));
    v
}

/// `[a]`, `[a, b]` and `[a, b, c]` as vectors.
fn dims2(a: usize, b: usize) -> (r: Vec<usize>)
    ensures
        r@ == seq![a, b],
{
    let mut v: Vec<usize> = Vec::new();
    v.push(a);
    v.push(b);
    assert(v@ =~= seq![a, b]);
    v
}

/// The block `r` has the shape `dims`, the values `data` and no labels.
pub open spec fn plain_block(r: ResultBlock, dims: Seq<usize>, data: Seq<u64>) -> bool {
    r.dims@ == dims && r.data@ == data && r.components@.len() == 0
}

impl D3plot {
    /// `r` is the history of a whole-model scalar, or `None` when the database does not carry it.
    pub open spec fn is_global_history(self, field: GlobalField, r: Option<Vec<u64>>) -> bool {
        &&& r is Some <==> global_slot(field) < self.ctrl@.nglbv
        &&& r matches Some(v) ==> v@ == self.gather(
            self.every_state(),
            (1 + global_slot(field)) as nat,
            1,
        )
    }

    /// The history of a whole-model scalar, one value per state; `None` when the
    /// database does not carry it.
    pub fn global_history(&self, field: GlobalField) -> (r: Option<Vec<u64>>)
        requires
            self.wf(),
        ensures
            self.is_global_history(field, r),
    {
        let slot: usize = slot_of(field);
        if slot >= self.ctrl.nglbv {
            return None;
        }
        let all: Vec<usize> = self.all_states();
        Some(self.read_states(all.as_slice(), 1 + slot, 1))
    }

    /// `r` is the history of a per-part scalar, or `None` when the database does not carry it.
    pub open spec fn is_part_field_history(self, field: PartField, r: Option<ResultBlock>) -> bool {
        &&& r is Some <==> self.ctrl.nmmat > 0 && part_field_start(field, self.ctrl@.nmmat)
            + self.ctrl@.nmmat <= self.ctrl@.nglbv
        &&& r matches Some(b) ==> plain_block(
            b,
            seq![self.states@.len() as usize, self.ctrl.nmmat],
            self.gather(
                self.every_state(),
                1 + part_field_start(field, self.ctrl@.nmmat),
                self.ctrl@.nmmat,
            ),
        )
    }

    /// The history of a per-part scalar, states by parts; `None` when the database
    /// does not carry it.
    pub fn part_field_history(&self, field: PartField) -> (r: Option<ResultBlock>)
        requires
            self.wf(),
        ensures
            self.is_part_field_history(field, r),
    {
        let np: usize = self.ctrl.nmmat;
        if np == 0 {
            return None;
        }
        let factor: u128 = match field {
            PartField::InternalEnergy => 0,
            PartField::KineticEnergy => 1,
            PartField::Mass => 5,
            PartField::HourglassEnergy => 6,
        };
        let end: u128 = 6 + (factor + 1) * np as u128;
        assert(end == part_field_start(field, np as nat) + np) by {
            let n = np as int;
            assert(1 * n == n && 2 * n == n + n && 6 * n == 5 * n + n && 7 * n == 6 * n + n);
        }
        if end > self.ctrl.nglbv as u128 {
            return None;
        }
        let start: usize = end as usize - np;
        let all: Vec<usize> = self.all_states();
        let data: Vec<u64> = self.read_states(all.as_slice(), 1 + start, np);
        Some(ResultBlock::new(dims2(self.states.len(), np), data))
    }

    /// `r` is the deletion flags of the elements of a family in a state, or `None` when the database does not carry it.
    pub open spec fn is_element_alive(self, block: StateBlock, state: usize, r: Option<Vec<u64>>) -> bool {
        &&& r is Some <==> self.ctrl@.mdlopt() == 2 && state < self.states@.len() && alive_count(
            self.ctrl@,
            block,
        ) > 0
        &&& r matches Some(v) ==> v@ == self.state_floats(
            state as int,
            self.ctrl@.deletion_off() + alive_before(self.ctrl@, block),
            alive_count(self.ctrl@, block),
        )
    }

    /// Deletion flags of the elements of a family, 0 for deleted; `None` without
    /// element deletion, for an empty family or a state out of range.
    pub fn element_alive(&self, block: StateBlock, state: usize) -> (r: Option<Vec<u64>>)
        requires
            self.wf(),
        ensures
            self.is_element_alive(block, state, r),
    {
        if self.ctrl.mdlopt() != 2 {
            return None;
        }
        proof {
            lemma_state_terms(self.ctrl@);
        }
        let c: &Control = &self.ctrl;
        let shells: usize = c.n_shells_with_data();
        let (before, count): (usize, usize) = match block {
            StateBlock::Solid => (0, c.nel8),
            StateBlock::ThickShell => (c.nel8, c.nelth),
            StateBlock::Shell => (c.nel8 + c.nelth, shells),
            StateBlock::Beam => (c.nel8 + c.nelth + shells, c.nel2),
            _ => return None,
        };
        if count == 0 || state >= self.states.len() {
            return None;
        }
        Some(self.read_state(state, c.deletion_off() + before, count))
    }

    /// `r` is the deletion flags of the nodes in a state, or `None` when the database does not carry it.
    pub open spec fn is_node_alive(self, state: usize, r: Option<Vec<u64>>) -> bool {
        &&& r is Some <==> self.ctrl@.mdlopt() == 1 && state < self.states@.len()
        &&& r matches Some(v) ==> v@ == self.state_floats(
            state as int,
            self.ctrl@.deletion_off(),
            self.ctrl.numnp as nat,
        )
    }

    /// Deletion flags of the nodes, 0 for deleted; `None` without node deletion or
    /// for a state out of range.
    pub fn node_alive(&self, state: usize) -> (r: Option<Vec<u64>>)
        requires
            self.wf(),
        ensures
            self.is_node_alive(state, r),
    {
        if self.ctrl.mdlopt() != 1 || state >= self.states.len() {
            return None;
        }
        Some(self.read_state(state, self.ctrl.deletion_off(), self.ctrl.numnp))
    }

    /// `r` is the SPH data of a state, or `None` when the database does not carry it.
    pub open spec fn is_sph_state(self, state: usize, r: Option<ResultBlock>) -> bool {
        &&& r is Some <==> self.ctrl.nmsph > 0 && state < self.states@.len()
        &&& r matches Some(b) ==> plain_block(
            b,
            seq![self.ctrl.nmsph, self.ctrl.n_sph_vars],
            self.state_floats(state as int, self.ctrl@.sph_off(), self.ctrl@.sph_words()),
        )
    }

    /// SPH data of a state, particles by variables; `None` without SPH nodes or for
    /// a state out of range.
    pub fn sph_state(&self, state: usize) -> (r: Option<ResultBlock>)
        requires
            self.wf(),
        ensures
            self.is_sph_state(state, r),
    {
        if self.ctrl.nmsph == 0 || state >= self.states.len() {
            return None;
        }
        let v: Vec<u64> = self.read_state(state, self.ctrl.sph_off(), self.ctrl.sph_words());
        Some(ResultBlock::new(dims2(self.ctrl.nmsph, self.ctrl.n_sph_vars), v))
    }

    /// `r` is the airbag data of a state, or `None` when the database does not carry it.
    pub open spec fn is_airbag_state(self, state: usize, r: Option<AirbagState>) -> bool {
        &&& r is Some <==> self.ctrl.n_airbags > 0 && state < self.states@.len()
        &&& r matches Some(a) ==> {
            let chambers = self.ctrl@.n_airbags * self.ctrl@.n_airbag_state_vars;
            let particles = self.ctrl@.n_particles * self.ctrl@.n_particle_state_vars;
            &&& a.airbag@ == self.state_floats(state as int, self.ctrl@.airbag_off(), chambers)
            &&& a.particle@ == self.state_floats(
                state as int,
                self.ctrl@.airbag_off() + chambers,
                particles,
            )
            &&& a.airbag_dims@ == seq![self.ctrl.n_airbags, self.ctrl.n_airbag_state_vars]
            &&& a.particle_dims@ == seq![self.ctrl.n_particles, self.ctrl.n_particle_state_vars]
        }
    }

    /// Airbag data of a state; `None` without airbags or for a state out of range.
    pub fn airbag_state(&self, state: usize) -> (r: Option<AirbagState>)
        requires
            self.wf(),
        ensures
            self.is_airbag_state(state, r),
    {
        if self.ctrl.n_airbags == 0 || state >= self.states.len() {
            return None;
        }
        proof {
            lemma_state_terms(self.ctrl@);
        }
        let off: usize = self.ctrl.airbag_off();
        let chambers: usize = self.ctrl.n_airbags * self.ctrl.n_airbag_state_vars;
        let particles: usize = self.ctrl.n_particles * self.ctrl.n_particle_state_vars;
        let airbag: Vec<u64> = self.read_state(state, off, chambers);
        let particle: Vec<u64> = self.read_state(state, off + chambers, particles);
        let airbag_dims: [usize; 2] = [self.ctrl.n_airbags, self.ctrl.n_airbag_state_vars];
        let particle_dims: [usize; 2] = [self.ctrl.n_particles, self.ctrl.n_particle_state_vars];
        assert(airbag_dims@ =~= seq![self.ctrl.n_airbags, self.ctrl.n_airbag_state_vars]);
        assert(particle_dims@ =~= seq![self.ctrl.n_particles, self.ctrl.n_particle_state_vars]);
        Some(AirbagState { airbag, airbag_dims, particle, particle_dims })
    }

    /// `r` is the rigid-body motion of a state, or `None` when the database does not carry it.
    pub open spec fn is_rigid_body_motion(self, state: usize, r: Option<ResultBlock>) -> bool {
        &&& r is Some <==> self.ctrl.n_rigids > 0 && state < self.states@.len()
        &&& r matches Some(b) ==> plain_block(
            b,
            seq![self.ctrl.n_rigids, self.ctrl@.rigid_vars() as usize],
            self.state_floats(state as int, self.ctrl@.rigid_off(), self.ctrl@.rigid_words()),
        )
    }

    /// Rigid-body motion of a state, bodies by 12 or 24 values.
    pub fn rigid_body_motion(&self, state: usize) -> (r: Option<ResultBlock>)
        requires
            self.wf(),
        ensures
            self.is_rigid_body_motion(state, r),
    {
        if self.ctrl.n_rigids == 0 || state >= self.states.len() {
            return None;
        }
        proof {
            lemma_state_terms(self.ctrl@);
        }
        let k: usize = self.ctrl.rigid_vars();
        let v: Vec<u64> = self.read_state(state, self.ctrl.rigid_off(), self.ctrl.n_rigids * k);
        Some(ResultBlock::new(dims2(self.ctrl.n_rigids, k), v))
    }

    /// `r` is the rigid-road motion of a state, or `None` when the database does not carry it.
    pub open spec fn is_rigid_road_state(self, state: usize, r: Option<ResultBlock>) -> bool {
        &&& r is Some <==> self.ctrl.n_roads > 0 && state < self.states@.len()
        &&& r matches Some(b) ==> plain_block(
            b,
            seq![self.ctrl.n_roads, 6usize],
            self.state_floats(state as int, self.ctrl@.road_off(), 6 * self.ctrl@.n_roads),
        )
    }

    /// Rigid-road motion of a state, surfaces by six values.
    pub fn rigid_road_state(&self, state: usize) -> (r: Option<ResultBlock>)
        requires
            self.wf(),
        ensures
            self.is_rigid_road_state(state, r),
    {
        if self.ctrl.n_roads == 0 || state >= self.states.len() {
            return None;
        }
        proof {
            lemma_state_terms(self.ctrl@);
        }
        let v: Vec<u64> = self.read_state(state, self.ctrl.road_off(), 6 * self.ctrl.n_roads);
        Some(ResultBlock::new(dims2(self.ctrl.n_roads, 6), v))
    }

    /// Word offset, in a state, of the rigid-wall forces.
    pub open spec fn wall_off(self) -> nat {
        7 + 7 * self.ctrl@.nmmat
    }

    /// The walls lie within the global variables.
    proof fn lemma_walls(self)
        requires
            self.wf(),
            self.ctrl.n_rigid_walls > 0,
        ensures
            self.wall_off() + self.ctrl@.n_rigid_walls <= 1 + self.ctrl@.nglbv,
            self.ctrl.n_rigid_wall_vars == 4 ==> self.wall_off() + 4 * self.ctrl@.n_rigid_walls <= 1
                + self.ctrl@.nglbv,
            1 + self.ctrl@.nglbv <= self.ctrl@.state_words() <= usize::MAX,
    {
        lemma_state_terms(self.ctrl@);
        reveal(control_of);
        crate::d3plot::header::lemma_wall_room(self.ctrl@.nglbv, self.ctrl@.nmmat);
    }

    /// `r` is the rigid-wall forces of a state, or `None` when the database does not carry it.
    pub open spec fn is_rigid_wall_force(self, state: usize, r: Option<ResultBlock>) -> bool {
        &&& r is Some <==> self.ctrl.n_rigid_walls > 0 && state < self.states@.len()
        &&& r matches Some(b) ==> plain_block(
            b,
            seq![self.ctrl.n_rigid_walls],
            self.state_floats(state as int, self.wall_off(), self.ctrl@.n_rigid_walls),
        )
    }

    /// Rigid-wall forces of a state, one per wall; `None` without walls or for a
    /// state out of range.
    pub fn rigid_wall_force(&self, state: usize) -> (r: Option<ResultBlock>)
        requires
            self.wf(),
        ensures
            self.is_rigid_wall_force(state, r),
    {
        if self.ctrl.n_rigid_walls == 0 || state >= self.states.len() {
            return None;
        }
        proof {
            self.lemma_walls();
        }
        let v: Vec<u64> = self.read_state(
            state,
            7 + 7 * self.ctrl.nmmat,
            self.ctrl.n_rigid_walls,
        );
        let mut dims: Vec<usize> = Vec::new();
        dims.push(self.ctrl.n_rigid_walls);
        assert(dims@ =~= seq![self.ctrl.n_rigid_walls]);
        Some(ResultBlock::new(dims, v))
    }

    /// `r` is the rigid-wall positions of a state, or `None` when the database does not carry it.
    pub open spec fn is_rigid_wall_position(self, state: usize, r: Option<ResultBlock>) -> bool {
        &&& r is Some <==> self.ctrl.n_rigid_walls > 0 && self.ctrl.n_rigid_wall_vars == 4 && state
            < self.states@.len()
        &&& r matches Some(b) ==> b.dims@ == seq![self.ctrl.n_rigid_walls, 3usize] && is_xyz(
            b.components@,
        ) && b.data@ == self.state_floats(
            state as int,
            self.wall_off() + self.ctrl@.n_rigid_walls,
            3 * self.ctrl@.n_rigid_walls,
        )
    }

    /// Rigid-wall positions of a state, walls by three; `None` when the database
    /// has forces only, no walls, or for a state out of range.
    pub fn rigid_wall_position(&self, state: usize) -> (r: Option<ResultBlock>)
        requires
            self.wf(),
        ensures
            self.is_rigid_wall_position(state, r),
    {
        if self.ctrl.n_rigid_walls == 0 || self.ctrl.n_rigid_wall_vars != 4 || state
            >= self.states.len() {
            return None;
        }
        proof {
            self.lemma_walls();
        }
        let nw: usize = self.ctrl.n_rigid_walls;
        let v: Vec<u64> = self.read_state(state, 7 + 7 * self.ctrl.nmmat + nw, 3 * nw);
        Some(ResultBlock::named(dims2(nw, 3), xyz(), v))
    }

    /// `r` is an auxiliary node field of a state, or `None` when the database does not carry it.
    pub open spec fn is_node_field(self, field: NodeField, state: usize, r: Option<ResultBlock>) -> bool {
        &&& r is Some <==> self.ctrl@.has_node_field(field) && state < self.states@.len()
        &&& r matches Some(b) ==> {
            let per = self.ctrl@.node_field_width(field);
            &&& b.dims@ == seq![self.ctrl.numnp, per as usize]
            &&& if per == 3 {
                is_xyz(b.components@)
            } else {
                b.components@.len() == 0
            }
            &&& b.data@ == self.state_floats(
                state as int,
                self.ctrl@.node_field_off(field),
                per * self.ctrl.numnp as nat,
            )
        }
    }

    /// An auxiliary node field of a state, nodes by values; three values are
    /// labelled as a vector. `None` when it is absent or the state out of range.
    pub fn node_field(&self, field: NodeField, state: usize) -> (r: Option<ResultBlock>)
        requires
            self.wf(),
        ensures
            self.is_node_field(field, state, r),
    {
        let (off, per): (usize, usize) = match self.ctrl.node_field_spec(field) {
            Some(x) => x,
            None => return None,
        };
        if state >= self.states.len() {
            return None;
        }
        proof {
            lemma_field_within(self.ctrl@, field);
        }
        let v: Vec<u64> = self.read_state(state, off, per * self.ctrl.numnp);
        let dims: Vec<usize> = dims2(self.ctrl.numnp, per);
        if per == 3 {
            Some(ResultBlock::named(dims, xyz(), v))
        } else {
            Some(ResultBlock::new(dims, v))
        }
    }

    /// This is an interface-force database: its shell slot holds contact segments.
    pub fn is_interface_force(&self) -> (r: bool)
        ensures
            r == (self.ctrl.filetype == 4),
    {
        self.ctrl.filetype == FILETYPE_INTFOR
    }

    /// The widths of the fields that split a segment record.
    pub fn interface_fields(&self) -> (r: InterfaceFields)
        ensures
            r == (InterfaceFields {
                wear: self.ctrl.nwear,
                pressure: self.ctrl.npresu,
                shear: self.ctrl.nshear,
                force: self.ctrl.nforce,
                gap: self.ctrl.ngapc,
            }),
    {
        InterfaceFields {
            wear: self.ctrl.nwear,
            pressure: self.ctrl.npresu,
            shear: self.ctrl.nshear,
            force: self.ctrl.nforce,
            gap: self.ctrl.ngapc,
        }
    }

    /// This is a fluid-structure interface-force file.
    pub fn is_fsifor(&self) -> (r: bool)
        ensures
            r == self.ctrl.fsifor,
    {
        self.ctrl.fsifor
    }

    /// First value and width of a field in a segment record; width 0 when absent.
    pub fn interface_field_span(&self, field: InterfaceField) -> (r: (usize, usize))
        requires
            self.ctrl.nwear + self.ctrl.npresu + self.ctrl.nshear + self.ctrl.nforce <= usize::MAX,
        ensures
            (r.0 as nat, r.1 as nat) == interface_span(self.ctrl@, field),
    {
        let c: &Control = &self.ctrl;
        match field {
            InterfaceField::Wear => (0, c.nwear),
            InterfaceField::Pressure => (c.nwear, c.npresu),
            InterfaceField::Shear => (c.nwear + c.npresu, c.nshear),
            InterfaceField::Force => (c.nwear + c.npresu + c.nshear, c.nforce),
            InterfaceField::Gap => (c.nwear + c.npresu + c.nshear + c.nforce, c.ngapc),
        }
    }

    /// Column and width (1, or 0 when absent) of a fluid-structure field.
    pub fn fsifor_field_span(&self, field: FsiforField) -> (r: (usize, usize))
        ensures
            r.0 == fsifor_column(field),
            r.1 == (if fsifor_column(field) < self.ctrl.nv2d {
                1usize
            } else {
                0usize
            }),
    {
        let idx: usize = match field {
            FsiforField::Pressure => 0,
            FsiforField::ForceX => 1,
            FsiforField::ForceY => 2,
            FsiforField::ForceZ => 3,
            FsiforField::RelativeVelocity => 4,
            FsiforField::VelocityX => 5,
            FsiforField::VelocityY => 6,
            FsiforField::VelocityZ => 7,
        };
        if idx < self.ctrl.nv2d {
            (idx, 1)
        } else {
            (idx, 0)
        }
    }
}

/// First value and width of a field in a segment record.
pub open spec fn interface_span(v: ControlView, field: InterfaceField) -> (nat, nat) {
    match field {
        InterfaceField::Wear => (0, v.nwear),
        InterfaceField::Pressure => (v.nwear, v.npresu),
        InterfaceField::Shear => (v.nwear + v.npresu, v.nshear),
        InterfaceField::Force => (v.nwear + v.npresu + v.nshear, v.nforce),
        InterfaceField::Gap => (v.nwear + v.npresu + v.nshear + v.nforce, v.ngapc),
    }
}

pub open spec fn fsifor_column(field: FsiforField) -> int {
    match field {
        FsiforField::Pressure => 0,
        FsiforField::ForceX => 1,
        FsiforField::ForceY => 2,
        FsiforField::ForceZ => 3,
        FsiforField::RelativeVelocity => 4,
        FsiforField::VelocityX => 5,
        FsiforField::VelocityY => 6,
        FsiforField::VelocityZ => 7,
    }
}

} // verus!
