//! The control block of a database and the layout that follows from it: where
//! each block of a state lies and how many words it has.

use crate::d3plot::words::is_word_size;
use crate::d3plot::{NodeField, StateBlock};
use vstd::prelude::*;

verus! {

pub const FILETYPE: usize = 11;
pub const NDIM: usize = 15;
pub const NUMNP: usize = 16;
pub const ICODE: usize = 17;
pub const NGLBV: usize = 18;
pub const IT: usize = 19;
pub const IU: usize = 20;
pub const IV: usize = 21;
pub const IA: usize = 22;
pub const NEL8: usize = 23;
pub const NV3D: usize = 27;
pub const NEL2: usize = 28;
pub const NV1D: usize = 30;
pub const NEL4: usize = 31;
pub const NUMMAT4: usize = 32;
pub const NV2D: usize = 33;
pub const NEIPH: usize = 34;
pub const NEIPS: usize = 35;
pub const MAXINT: usize = 36;
/// Number of SPH nodes.
pub const NMSPH: usize = 37;
pub const NARBS: usize = 39;
pub const NELTH: usize = 40;
pub const NV3DT: usize = 42;
pub const IOSHL1: usize = 43;
pub const IOSHL2: usize = 44;
pub const IOSHL3: usize = 45;
pub const IOSHL4: usize = 46;
/// ALE material count.
pub const IALEMAT: usize = 47;
pub const NMMAT: usize = 51;
/// Airbags: their number is this word modulo 1000.
pub const NPEFG: usize = 54;
/// 8-node shell count.
pub const NEL48: usize = 55;
/// Digit flags: node temperature gradient, residual forces and moments.
pub const IDTDT: usize = 56;
/// Extra header words beyond the base block.
pub const EXTRA: usize = 57;
/// Interface-force field counts per segment.
pub const NWEAR: usize = 59;
pub const NPRESU: usize = 60;
pub const NSHEAR: usize = 61;
pub const NFORCE: usize = 62;
pub const NGAPC: usize = 63;
/// Solid thermal variables per solid, an extra header word.
pub const NT3D: usize = 65;

/// Words of the base control block.
pub const CONTROL_WORDS: usize = 64;
/// Node coordinates are always three-dimensional; NDIM is a flag word.
pub const SPATIAL_DIM: usize = 3;
/// Each state starts with one time word.
pub const TIME_WORDS: usize = 1;
/// The run title occupies the first words.
pub const TITLE_WORDS: usize = 10;
/// The value of an `ioshl` word when the field is present.
pub const IOSHL_PRESENT: i64 = 1000;
/// `filetype` of a d3plot.
pub const FILETYPE_D3PLOT: i64 = 1;
/// `filetype` of an interface-force file.
pub const FILETYPE_INTFOR: i64 = 4;
/// `icode` of an LS-DYNA database.
pub const ICODE_LSDYNA: i64 = 6;
/// NDIM of a plain structural model.
pub const NDIM_STRUCTURAL: i64 = 4;
/// Added to the layer count in `maxint` to flag element deletion.
pub const MDLOPT_ELEMENT_DELETION: i64 = 10000;

/// Parsed control block: the values that are used.
#[derive(Debug, Clone, Copy)]
pub struct Control {
    /// 4 (single) or 8 (double).
    pub wordsize: u64,
    pub ndim: usize,
    pub numnp: usize,
    pub nglbv: usize,
    pub it: i64,
    pub iu: i64,
    pub iv: i64,
    pub ia: i64,
    pub nel8: usize,
    pub nv3d: usize,
    pub nelth: usize,
    pub nv3dt: usize,
    pub nel2: usize,
    pub nv1d: usize,
    pub nel4: usize,
    pub nv2d: usize,
    pub narbs: usize,
    /// Shell integration layers; the sign encodes element or node deletion.
    pub maxint: i64,
    /// Extra history variables per shell integration point.
    pub neips: usize,
    pub ioshl1: i64,
    pub ioshl2: i64,
    pub ioshl3: i64,
    pub ioshl4: i64,
    pub idtdt: i64,
    pub nt3d: usize,
    /// Shells in rigid bodies: they write no state data.
    pub n_rigid_shells: usize,
    pub ialemat: usize,
    pub npefg: i64,
    pub nel48: usize,
    pub nmsph: usize,
    /// Byte offset of the first state.
    pub geom_bytes: u64,
    /// Byte offset of the node coordinates.
    pub coord_off: u64,
    pub n_sph_vars: usize,
    pub n_airbags: usize,
    pub n_particles: usize,
    pub n_airbag_state_vars: usize,
    pub n_particle_state_vars: usize,
    pub n_geom_vars: usize,
    pub n_rigids: usize,
    pub reduced_rigid: bool,
    pub n_roads: usize,
    pub nmmat: usize,
    /// Rigid walls occupy the global variables after the scalars and the part block.
    pub n_rigid_walls: usize,
    pub n_rigid_wall_vars: usize,
    pub extra: usize,
    pub filetype: i64,
    /// An interface-force file with negative NV2D: a fluid-structure (ALE) file.
    pub fsifor: bool,
    pub nwear: usize,
    pub npresu: usize,
    pub nshear: usize,
    pub nforce: usize,
    pub ngapc: usize,
}

/// The control block in unbounded numbers, as the header and the geometry
/// section state it.
pub struct ControlView {
    pub wordsize: nat,
    pub ndim: int,
    pub numnp: int,
    pub nglbv: nat,
    pub it: int,
    pub iu: int,
    pub iv: int,
    pub ia: int,
    pub nel8: nat,
    pub nv3d: nat,
    pub nelth: nat,
    pub nv3dt: nat,
    pub nel2: nat,
    pub nv1d: nat,
    pub nel4: nat,
    pub nv2d: nat,
    pub narbs: nat,
    pub maxint: int,
    pub neips: nat,
    pub ioshl1: int,
    pub ioshl2: int,
    pub ioshl3: int,
    pub ioshl4: int,
    pub idtdt: int,
    pub nt3d: nat,
    pub n_rigid_shells: nat,
    pub ialemat: nat,
    pub npefg: int,
    pub nel48: nat,
    pub nmsph: nat,
    pub geom_bytes: nat,
    pub coord_off: nat,
    pub n_sph_vars: nat,
    pub n_airbags: nat,
    pub n_particles: nat,
    pub n_airbag_state_vars: nat,
    pub n_particle_state_vars: nat,
    pub n_geom_vars: nat,
    pub n_rigids: nat,
    pub reduced_rigid: bool,
    pub n_roads: nat,
    pub nmmat: nat,
    pub n_rigid_walls: nat,
    pub n_rigid_wall_vars: nat,
    pub extra: nat,
    pub filetype: int,
    pub fsifor: bool,
    pub nwear: nat,
    pub npresu: nat,
    pub nshear: nat,
    pub nforce: nat,
    pub ngapc: nat,
}

impl View for Control {
    type V = ControlView;

    open spec fn view(&self) -> ControlView {
        ControlView {
            wordsize: self.wordsize as nat,
            ndim: self.ndim as int,
            numnp: self.numnp as int,
            nglbv: self.nglbv as nat,
            it: self.it as int,
            iu: self.iu as int,
            iv: self.iv as int,
            ia: self.ia as int,
            nel8: self.nel8 as nat,
            nv3d: self.nv3d as nat,
            nelth: self.nelth as nat,
            nv3dt: self.nv3dt as nat,
            nel2: self.nel2 as nat,
            nv1d: self.nv1d as nat,
            nel4: self.nel4 as nat,
            nv2d: self.nv2d as nat,
            narbs: self.narbs as nat,
            maxint: self.maxint as int,
            neips: self.neips as nat,
            ioshl1: self.ioshl1 as int,
            ioshl2: self.ioshl2 as int,
            ioshl3: self.ioshl3 as int,
            ioshl4: self.ioshl4 as int,
            idtdt: self.idtdt as int,
            nt3d: self.nt3d as nat,
            n_rigid_shells: self.n_rigid_shells as nat,
            ialemat: self.ialemat as nat,
            npefg: self.npefg as int,
            nel48: self.nel48 as nat,
            nmsph: self.nmsph as nat,
            geom_bytes: self.geom_bytes as nat,
            coord_off: self.coord_off as nat,
            n_sph_vars: self.n_sph_vars as nat,
            n_airbags: self.n_airbags as nat,
            n_particles: self.n_particles as nat,
            n_airbag_state_vars: self.n_airbag_state_vars as nat,
            n_particle_state_vars: self.n_particle_state_vars as nat,
            n_geom_vars: self.n_geom_vars as nat,
            n_rigids: self.n_rigids as nat,
            reduced_rigid: self.reduced_rigid,
            n_roads: self.n_roads as nat,
            nmmat: self.nmmat as nat,
            n_rigid_walls: self.n_rigid_walls as nat,
            n_rigid_wall_vars: self.n_rigid_wall_vars as nat,
            extra: self.extra as nat,
            filetype: self.filetype as int,
            fsifor: self.fsifor,
            nwear: self.nwear as nat,
            npresu: self.npresu as nat,
            nshear: self.nshear as nat,
            nforce: self.nforce as nat,
            ngapc: self.ngapc as nat,
        }
    }
}

/// Node words of the IT flag. Ones digit: 1 for the temperature, 2 for the
/// temperature and the heat flux, 3 for three temperature layers and the heat
/// flux. Tens digit 1: mass scaling.
pub open spec fn therm_vars(it: int) -> nat {
    let temp_flux: nat = if it % 10 == 1 {
        1
    } else if it % 10 == 2 {
        4
    } else if it % 10 == 3 {
        6
    } else {
        0
    };
    let mass: nat = if (it / 10) % 10 == 1 { 1 } else { 0 };
    temp_flux + mass
}

/// Node words of the IDTDT flag: ones digit 1 for the temperature gradient, tens
/// digit 1 for residual forces and moments.
pub open spec fn idtdt_vars(idtdt: int) -> nat {
    let grad: nat = if idtdt % 10 == 1 { 1 } else { 0 };
    let residual: nat = if (idtdt / 10) % 10 == 1 { 6 } else { 0 };
    grad + residual
}

pub open spec fn flag(b: bool) -> nat {
    if b {
        1
    } else {
        0
    }
}

impl ControlView {
    /// 0 no deletion, 1 node deletion, 2 element deletion.
    pub open spec fn mdlopt(self) -> int {
        if self.maxint >= 0 {
            0
        } else if -self.maxint >= MDLOPT_ELEMENT_DELETION {
            2
        } else {
            1
        }
    }

    pub open spec fn n_shell_layers(self) -> nat {
        if self.maxint >= 0 {
            self.maxint as nat
        } else if -self.maxint >= MDLOPT_ELEMENT_DELETION {
            (-self.maxint - MDLOPT_ELEMENT_DELETION) as nat
        } else {
            (-self.maxint) as nat
        }
    }

    pub open spec fn mattyp(self) -> bool {
        self.ndim == 5 || self.ndim == 7
    }

    pub open spec fn node_therm_vars(self) -> nat {
        therm_vars(self.it) + idtdt_vars(self.idtdt)
    }

    /// Words per node and state: three for each of displacement, velocity and
    /// acceleration that is present, and the thermal words.
    pub open spec fn node_vars(self) -> nat {
        3 * (flag(self.iu != 0) + flag(self.iv != 0) + flag(self.ia != 0)) + self.node_therm_vars()
    }

    /// Words of a vector field of all nodes, present when its flag is set.
    pub open spec fn vector_words(self, present: int) -> nat {
        if present != 0 {
            3 * (self.numnp as nat)
        } else {
            0
        }
    }

    pub open spec fn node_data_words(self) -> nat {
        self.node_vars() * (self.numnp as nat)
    }

    pub open spec fn solid_thermal_words(self) -> nat {
        self.nt3d * self.nel8
    }

    /// Shells that write state data.
    pub open spec fn n_shells_with_data(self) -> nat {
        if self.nel4 >= self.n_rigid_shells {
            (self.nel4 - self.n_rigid_shells) as nat
        } else {
            0
        }
    }

    pub open spec fn element_words(self) -> nat {
        self.nel8 * self.nv3d + self.nelth * self.nv3dt + self.nel2 * self.nv1d
            + self.n_shells_with_data() * self.nv2d
    }

    pub open spec fn deletion_words(self) -> nat {
        if self.mdlopt() == 1 {
            self.numnp as nat
        } else if self.mdlopt() == 2 {
            self.nel8 + self.nel4 + self.nel2 + self.nelth
        } else {
            0
        }
    }

    pub open spec fn sph_words(self) -> nat {
        self.nmsph * self.n_sph_vars
    }

    pub open spec fn airbag_words(self) -> nat {
        self.n_airbags * self.n_airbag_state_vars + self.n_particles * self.n_particle_state_vars
    }

    pub open spec fn rigid_vars(self) -> nat {
        if self.reduced_rigid {
            12
        } else {
            24
        }
    }

    pub open spec fn rigid_words(self) -> nat {
        self.n_rigids * self.rigid_vars()
    }

    pub open spec fn deletion_off(self) -> nat {
        1 + self.nglbv + self.node_data_words() + self.solid_thermal_words() + self.element_words()
    }

    pub open spec fn sph_off(self) -> nat {
        self.deletion_off() + self.deletion_words()
    }

    pub open spec fn airbag_off(self) -> nat {
        self.sph_off() + self.sph_words()
    }

    pub open spec fn road_off(self) -> nat {
        self.airbag_off() + self.airbag_words()
    }

    pub open spec fn rigid_off(self) -> nat {
        self.road_off() + 6 * self.n_roads
    }

    /// Words of one state.
    pub open spec fn state_words(self) -> nat {
        self.rigid_off() + self.rigid_words()
    }

    pub open spec fn bytes_per_state(self) -> nat {
        self.state_words() * self.wordsize
    }

    /// Where a result block lies: the word offset in the state, the number of
    /// entities, and the words of each.
    pub open spec fn block_place(self, block: StateBlock) -> (nat, nat, nat) {
        let base = 1 + self.nglbv;
        let n = self.numnp as nat;
        let vel = base + self.vector_words(self.iu) + self.node_therm_vars() * n;
        let acc = vel + self.vector_words(self.iv);
        let solid = base + self.node_data_words() + self.solid_thermal_words();
        let tshell = solid + self.nel8 * self.nv3d;
        let beam = tshell + self.nelth * self.nv3dt;
        let shell = beam + self.nel2 * self.nv1d;
        match block {
            StateBlock::Displacement => (base, n, 3),
            StateBlock::Velocity => (vel, n, 3),
            StateBlock::Acceleration => (acc, n, 3),
            StateBlock::Solid => (solid, self.nel8, self.nv3d),
            StateBlock::ThickShell => (tshell, self.nelth, self.nv3dt),
            StateBlock::Beam => (beam, self.nel2, self.nv1d),
            StateBlock::Shell => (shell, self.n_shells_with_data(), self.nv2d),
        }
    }

    /// The database carries the block.
    pub open spec fn has_block(self, block: StateBlock) -> bool {
        let flagged = match block {
            StateBlock::Displacement => self.iu != 0,
            StateBlock::Velocity => self.iv != 0,
            StateBlock::Acceleration => self.ia != 0,
            _ => true,
        };
        flagged && self.block_place(block).1 > 0 && self.block_place(block).2 > 0
    }

    pub open spec fn has_node_field(self, field: NodeField) -> bool {
        match field {
            NodeField::Temperature => 1 <= self.it % 10 <= 3,
            NodeField::HeatFlux => 2 <= self.it % 10 <= 3,
            NodeField::MassScaling => (self.it / 10) % 10 == 1,
            NodeField::TemperatureGradient => self.idtdt % 10 == 1,
            NodeField::ResidualForce => (self.idtdt / 10) % 10 == 1,
            NodeField::ResidualMoment => (self.idtdt / 10) % 10 == 1,
        }
    }

    /// Words per node of an auxiliary node field.
    pub open spec fn node_field_width(self, field: NodeField) -> nat {
        match field {
            NodeField::Temperature => if self.it % 10 == 3 { 3 } else { 1 },
            NodeField::HeatFlux => 3,
            NodeField::MassScaling => 1,
            NodeField::TemperatureGradient => 1,
            NodeField::ResidualForce => 3,
            NodeField::ResidualMoment => 3,
        }
    }

    /// Words of a field over all nodes; 0 when it is absent.
    pub open spec fn node_field_words(self, field: NodeField) -> nat {
        if !self.has_node_field(field) {
            0
        } else if self.node_field_width(field) == 3 {
            3 * (self.numnp as nat)
        } else {
            self.numnp as nat
        }
    }

    /// Word offset, in a state, of an auxiliary node field: the fields follow the
    /// displacements in the order of the cases here.
    pub open spec fn node_field_off(self, field: NodeField) -> nat {
        let temp = 1 + self.nglbv + self.vector_words(self.iu);
        let flux = temp + self.node_field_words(NodeField::Temperature);
        let mass = flux + self.node_field_words(NodeField::HeatFlux);
        let grad = mass + self.node_field_words(NodeField::MassScaling);
        let force = grad + self.node_field_words(NodeField::TemperatureGradient);
        let moment = force + self.node_field_words(NodeField::ResidualForce);
        match field {
            NodeField::Temperature => temp,
            NodeField::HeatFlux => flux,
            NodeField::MassScaling => mass,
            NodeField::TemperatureGradient => grad,
            NodeField::ResidualForce => force,
            NodeField::ResidualMoment => moment,
        }
    }

    /// Words of the connectivity records.
    pub open spec fn connectivity_words(self) -> nat {
        9 * self.nel8 + 9 * self.nelth + 6 * self.nel2 + 5 * self.nel4
    }

    /// Every count is a machine number.
    pub open spec fn counts_fit(self) -> bool {
        &&& 0 <= self.ndim <= usize::MAX
        &&& 0 <= self.numnp <= usize::MAX
        &&& self.nglbv <= usize::MAX
        &&& self.nel8 <= usize::MAX
        &&& self.nv3d <= usize::MAX
        &&& self.nelth <= usize::MAX
        &&& self.nv3dt <= usize::MAX
        &&& self.nel2 <= usize::MAX
        &&& self.nv1d <= usize::MAX
        &&& self.nel4 <= usize::MAX
        &&& self.nv2d <= usize::MAX
        &&& self.narbs <= usize::MAX
        &&& self.neips <= usize::MAX
        &&& self.nt3d <= usize::MAX
        &&& self.n_rigid_shells <= usize::MAX
        &&& self.ialemat <= usize::MAX
        &&& self.nel48 <= usize::MAX
        &&& self.nmsph <= usize::MAX
        &&& self.n_sph_vars <= usize::MAX
        &&& self.n_particles <= usize::MAX
        &&& self.n_airbag_state_vars <= usize::MAX
        &&& self.n_particle_state_vars <= usize::MAX
        &&& self.n_geom_vars <= usize::MAX
        &&& self.n_rigids <= usize::MAX
        &&& self.n_roads <= usize::MAX
        &&& self.nmmat <= usize::MAX
        &&& self.extra <= usize::MAX
        &&& self.nwear <= usize::MAX
        &&& self.npresu <= usize::MAX
        &&& self.nshear <= usize::MAX
        &&& self.nforce <= usize::MAX
        &&& self.ngapc <= usize::MAX
    }

    /// Every count is a machine number, and the geometry and one state can be
    /// addressed.
    pub open spec fn fits(self) -> bool {
        &&& is_word_size(self.wordsize as int)
        &&& self.counts_fit()
        &&& self.maxint > i64::MIN
        &&& self.n_shell_layers() <= usize::MAX
        &&& self.geom_bytes <= usize::MAX
        &&& self.coord_off + (3 * self.numnp + self.connectivity_words() + self.narbs)
            * self.wordsize <= self.geom_bytes
        &&& self.bytes_per_state() <= usize::MAX
    }
}

/// Node thermal words per node of the IT flag.
pub fn therm_vars_for_it(it: i64) -> (r: usize)
    ensures
        r == therm_vars(it as int),
{
    let ones: i64 = digit(it, 0);
    let tens: i64 = digit(it, 1);
    let temp_flux: usize = if ones == 1 {
        1
    } else if ones == 2 {
        1 + 3
    } else if ones == 3 {
        3 + 3
    } else {
        0
    };
    let mass: usize = if tens == 1 { 1 } else { 0 };
    temp_flux + mass
}

/// Decimal digit `n` (0 the ones, 1 the tens) of `x`, by floored division.
pub fn digit(x: i64, n: u32) -> (r: i64)
    requires
        n <= 1,
    ensures
        n == 0 ==> r == x as int % 10,
        n == 1 ==> r == (x as int / 10) % 10,
{
    if n == 0 {
        floor_rem10(x)
    } else {
        floor_rem10(floor_div10(x))
    }
}

fn floor_rem10(x: i64) -> (r: i64)
    ensures
        r == x as int % 10,
{
    let m: i64 = x % 10;
    if m < 0 {
        m + 10
    } else {
        m
    }
}

fn floor_div10(x: i64) -> (q: i64)
    ensures
        q == x as int / 10,
{
    if x >= 0 || x % 10 == 0 {
        x / 10
    } else {
        x / 10 - 1
    }
}

/// Extra node words of the IDTDT flag.
pub fn idtdt_node_vars(idtdt: i64) -> (r: usize)
    ensures
        r == idtdt_vars(idtdt as int),
{
    let grad: usize = if digit(idtdt, 0) == 1 { 1 } else { 0 };
    let residual: usize = if digit(idtdt, 1) == 1 { 3 + 3 } else { 0 };
    grad + residual
}

/// Every term of the state size is bounded by it.
pub proof fn lemma_state_terms(v: ControlView)
    requires
        v.fits(),
    ensures
        v.state_words() <= usize::MAX,
        v.nel8 * v.nv3d <= v.element_words(),
        v.nelth * v.nv3dt <= v.element_words(),
        v.nel2 * v.nv1d <= v.element_words(),
        v.n_shells_with_data() * v.nv2d <= v.element_words(),
        v.node_therm_vars() * (v.numnp as nat) <= v.node_data_words(),
        v.node_data_words() == v.vector_words(v.iu) + v.vector_words(v.iv) + v.vector_words(v.ia)
            + v.node_therm_vars() * (v.numnp as nat),
        3 * v.numnp <= usize::MAX,
        v.connectivity_words() <= usize::MAX,
        v.node_therm_vars() <= 14,
{
    let n = v.numnp as nat;
    let sw = v.state_words();
    assert(sw <= sw * v.wordsize) by (nonlinear_arith)
        requires
            v.wordsize >= 1,
    ;
    let t = v.node_therm_vars();
    let a = flag(v.iu != 0);
    let b = flag(v.iv != 0);
    let c = flag(v.ia != 0);
    assert((3 * (a + b + c) + t) * n == 3 * a * n + 3 * b * n + 3 * c * n + t * n)
        by (nonlinear_arith);
    assert(3 * a * n == (if a == 1 { 3 * n } else { 0 }) && 3 * b * n == (if b == 1 {
        3 * n
    } else {
        0
    }) && 3 * c * n == (if c == 1 {
        3 * n
    } else {
        0
    })) by (nonlinear_arith)
        requires
            a == 0 || a == 1,
            b == 0 || b == 1,
            c == 0 || c == 1,
    ;
    assert(0 <= t * n) by (nonlinear_arith);
    let g = 3 * v.numnp + v.connectivity_words() + v.narbs;
    assert(g <= g * v.wordsize) by (nonlinear_arith)
        requires
            v.wordsize >= 1,
            g >= 0,
    ;
}

/// The result blocks of a state follow each other in a fixed order: none overlaps
/// the next, the last ends where the deletion flags begin, and the first begins
/// behind the time and the global variables.
pub proof fn law_blocks_follow_each_other(v: ControlView)
    requires
        v.fits(),
    ensures
        ({
            let disp = v.block_place(StateBlock::Displacement);
            let vel = v.block_place(StateBlock::Velocity);
            let acc = v.block_place(StateBlock::Acceleration);
            let solid = v.block_place(StateBlock::Solid);
            let tshell = v.block_place(StateBlock::ThickShell);
            let beam = v.block_place(StateBlock::Beam);
            let shell = v.block_place(StateBlock::Shell);
            &&& disp.0 == 1 + v.nglbv
            &&& v.has_block(StateBlock::Displacement) ==> disp.0 + disp.1 * disp.2 <= vel.0
            &&& v.has_block(StateBlock::Velocity) ==> vel.0 + vel.1 * vel.2 <= acc.0
            &&& v.has_block(StateBlock::Acceleration) ==> acc.0 + acc.1 * acc.2 <= solid.0
            &&& disp.0 <= vel.0 <= acc.0 <= solid.0
            &&& tshell.0 == solid.0 + solid.1 * solid.2
            &&& beam.0 == tshell.0 + tshell.1 * tshell.2
            &&& shell.0 == beam.0 + beam.1 * beam.2
            &&& shell.0 + shell.1 * shell.2 == v.deletion_off()
            &&& v.deletion_off() <= v.sph_off() <= v.airbag_off() <= v.road_off() <= v.rigid_off()
                <= v.state_words()
        }),
{
    lemma_state_terms(v);
    let n = v.numnp as nat;
    assert(n * 3 == 3 * n);
    assert(v.nt3d * v.nel8 >= 0);
}

impl Control {
    /// The sizes of the database can be addressed.
    pub open spec fn wf(self) -> bool {
        self@.fits()
    }

    /// A per-part material-type section is present.
    pub fn mattyp(&self) -> (r: bool)
        ensures
            r == self@.mattyp(),
    {
        self.ndim == 5 || self.ndim == 7
    }

    /// The deletion encoding of `maxint`: 0 none, 1 nodes, 2 elements.
    pub fn mdlopt(&self) -> (r: i64)
        requires
            self.maxint > i64::MIN,
        ensures
            r == self@.mdlopt(),
    {
        if self.maxint >= 0 {
            0
        } else if -self.maxint >= MDLOPT_ELEMENT_DELETION {
            2
        } else {
            1
        }
    }

    /// Number of through-thickness integration points of shells.
    pub fn n_shell_layers(&self) -> (r: usize)
        requires
            self.wf(),
        ensures
            r == self@.n_shell_layers(),
    {
        if self.maxint >= 0 {
            self.maxint as usize
        } else if -self.maxint >= MDLOPT_ELEMENT_DELETION {
            (-self.maxint - MDLOPT_ELEMENT_DELETION) as usize
        } else {
            (-self.maxint) as usize
        }
    }

    /// A shell layer carries the six stress components.
    pub fn has_shell_stress(&self) -> (r: bool)
        ensures
            r == (self.ioshl1 == IOSHL_PRESENT),
    {
        self.ioshl1 == IOSHL_PRESENT
    }

    /// A shell layer carries the effective plastic strain.
    pub fn has_shell_pstrain(&self) -> (r: bool)
        ensures
            r == (self.ioshl2 == IOSHL_PRESENT),
    {
        self.ioshl2 == IOSHL_PRESENT
    }

    /// Byte offset of the first state.
    pub fn geometry_section_bytes(&self) -> (r: u64)
        ensures
            r == self@.geom_bytes,
    {
        self.geom_bytes
    }

    /// Node words between displacement and velocity, per node.
    pub fn node_therm_vars(&self) -> (r: usize)
        ensures
            r == self@.node_therm_vars(),
            r <= 14,
    {
        therm_vars_for_it(self.it) + idtdt_node_vars(self.idtdt)
    }

    /// Solid thermal words per state.
    pub fn solid_thermal_words(&self) -> (r: usize)
        requires
            self.wf(),
        ensures
            r == self@.solid_thermal_words(),
    {
        proof {
            lemma_state_terms(self@);
        }
        self.nt3d * self.nel8
    }

    /// Words of node data per state.
    pub fn node_data_words(&self) -> (r: usize)
        requires
            self.wf(),
        ensures
            r == self@.node_data_words(),
    {
        proof {
            lemma_state_terms(self@);
        }
        let u: usize = if self.iu != 0 { 1 } else { 0 };
        let v: usize = if self.iv != 0 { 1 } else { 0 };
        let a: usize = if self.ia != 0 { 1 } else { 0 };
        ((u + v + a) * SPATIAL_DIM + self.node_therm_vars()) * self.numnp
    }

    /// Deletion flags per state.
    pub fn deletion_words(&self) -> (r: usize)
        requires
            self.wf(),
        ensures
            r == self@.deletion_words(),
    {
        proof {
            lemma_state_terms(self@);
        }
        let m: i64 = self.mdlopt();
        if m == 1 {
            self.numnp
        } else if m == 2 {
            self.nel8 + self.nel4 + self.nel2 + self.nelth
        } else {
            0
        }
    }

    /// Shells that write state data: those of rigid bodies write none.
    pub fn n_shells_with_data(&self) -> (r: usize)
        ensures
            r == self@.n_shells_with_data(),
    {
        if self.nel4 >= self.n_rigid_shells {
            self.nel4 - self.n_rigid_shells
        } else {
            0
        }
    }

    /// Element result words per state.
    pub fn element_words(&self) -> (r: usize)
        requires
            self.wf(),
        ensures
            r == self@.element_words(),
    {
        proof {
            lemma_state_terms(self@);
        }
        let shells: usize = self.n_shells_with_data();
        self.nel8 * self.nv3d + self.nelth * self.nv3dt + self.nel2 * self.nv1d + shells * self.nv2d
    }

    /// Bytes per state: time, global variables, node data, solid thermal data,
    /// element data, deletion, SPH, airbag particles, rigid road and rigid-body
    /// motion, in this order.
    pub fn bytes_per_state(&self) -> (r: u64)
        requires
            self.wf(),
        ensures
            r == self@.bytes_per_state(),
            r > 0,
    {
        proof {
            lemma_state_terms(self@);
            assert(1 * 1 <= self@.state_words() * self@.wordsize) by (nonlinear_arith)
                requires
                    self@.state_words() >= 1,
                    self@.wordsize >= 1,
            ;
        }
        let off: usize = self.rigid_off();
        let vars: usize = self.rigid_vars();
        (off + self.n_rigids * vars) as u64 * self.wordsize
    }

    /// Where a result block lies in a state: its word offset, the number of
    /// entities and the words of each. `None` when the block is absent.
    pub fn block_spec(&self, block: StateBlock) -> (r: Option<(usize, usize, usize)>)
        requires
            self.wf(),
        ensures
            r is Some <==> self@.has_block(block),
            r matches Some(p) ==> (p.0 as nat, p.1 as nat, p.2 as nat) == self@.block_place(block),
    {
        proof {
            lemma_state_terms(self@);
        }
        let base: usize = TIME_WORDS + self.nglbv;
        let n3: usize = self.numnp * SPATIAL_DIM;
        let therm: usize = self.node_therm_vars() * self.numnp;
        let vel: usize = base + (if self.iu != 0 { n3 } else { 0 }) + therm;
        let acc: usize = vel + (if self.iv != 0 { n3 } else { 0 });
        let solid: usize = base + self.node_data_words() + self.solid_thermal_words();
        let tshell: usize = solid + self.nel8 * self.nv3d;
        let beam: usize = tshell + self.nelth * self.nv3dt;
        let shell: usize = beam + self.nel2 * self.nv1d;
        let (cond, off, count, vars): (bool, usize, usize, usize) = match block {
            StateBlock::Displacement => (self.iu != 0, base, self.numnp, SPATIAL_DIM),
            StateBlock::Velocity => (self.iv != 0, vel, self.numnp, SPATIAL_DIM),
            StateBlock::Acceleration => (self.ia != 0, acc, self.numnp, SPATIAL_DIM),
            StateBlock::Solid => (true, solid, self.nel8, self.nv3d),
            StateBlock::ThickShell => (true, tshell, self.nelth, self.nv3dt),
            StateBlock::Beam => (true, beam, self.nel2, self.nv1d),
            StateBlock::Shell => (true, shell, self.n_shells_with_data(), self.nv2d),
        };
        if cond && count > 0 && vars > 0 {
            Some((off, count, vars))
        } else {
            None
        }
    }

    /// Byte offset, in a state, of the displacements.
    pub fn iu_offset_in_state(&self) -> (r: u64)
        requires
            self.wf(),
        ensures
            r == (1 + self@.nglbv) * self@.wordsize,
    {
        proof {
            lemma_state_terms(self@);
            assert((1 + self@.nglbv) * self@.wordsize <= self@.state_words() * self@.wordsize)
                by (nonlinear_arith)
                requires
                    1 + self@.nglbv <= self@.state_words(),
            ;
        }
        (TIME_WORDS + self.nglbv) as u64 * self.wordsize
    }

    /// Word offset in a state and words per node of an auxiliary node field, or
    /// `None` when it is absent.
    pub fn node_field_spec(&self, field: NodeField) -> (r: Option<(usize, usize)>)
        requires
            self.wf(),
        ensures
            r is Some <==> self@.has_node_field(field),
            r matches Some(p) ==> p.0 == self@.node_field_off(field) && p.1
                == self@.node_field_width(field),
    {
        let ghost v = self@;
        assert(v.node_field_off(NodeField::ResidualMoment) + v.node_field_words(
            NodeField::ResidualMoment,
        ) <= usize::MAX && 3 * v.numnp <= usize::MAX) by {
            lemma_state_terms(v);
            lemma_node_field_words(v);
        }
        let temp: usize = TIME_WORDS + self.nglbv + (if self.iu != 0 {
            self.numnp * SPATIAL_DIM
        } else {
            0
        });
        let flux: usize = temp + self.node_field_words(NodeField::Temperature);
        let mass: usize = flux + self.node_field_words(NodeField::HeatFlux);
        let grad: usize = mass + self.node_field_words(NodeField::MassScaling);
        let force: usize = grad + self.node_field_words(NodeField::TemperatureGradient);
        let moment: usize = force + self.node_field_words(NodeField::ResidualForce);
        if self.has_node_field(field) {
            let off: usize = match field {
                NodeField::Temperature => temp,
                NodeField::HeatFlux => flux,
                NodeField::MassScaling => mass,
                NodeField::TemperatureGradient => grad,
                NodeField::ResidualForce => force,
                NodeField::ResidualMoment => moment,
            };
            Some((off, self.node_field_width(field)))
        } else {
            None
        }
    }

    /// The auxiliary node field is present.
    fn has_node_field(&self, field: NodeField) -> (r: bool)
        ensures
            r == self@.has_node_field(field),
    {
        match field {
            NodeField::Temperature => {
                let d: i64 = digit(self.it, 0);
                1 <= d && d <= 3
            },
            NodeField::HeatFlux => {
                let d: i64 = digit(self.it, 0);
                2 <= d && d <= 3
            },
            NodeField::MassScaling => digit(self.it, 1) == 1,
            NodeField::TemperatureGradient => digit(self.idtdt, 0) == 1,
            NodeField::ResidualForce => digit(self.idtdt, 1) == 1,
            NodeField::ResidualMoment => digit(self.idtdt, 1) == 1,
        }
    }

    /// Words per node of the field.
    fn node_field_width(&self, field: NodeField) -> (r: usize)
        ensures
            r == self@.node_field_width(field),
    {
        match field {
            NodeField::Temperature => if digit(self.it, 0) == 3 { 3 } else { 1 },
            NodeField::HeatFlux => 3,
            NodeField::MassScaling => 1,
            NodeField::TemperatureGradient => 1,
            NodeField::ResidualForce => 3,
            NodeField::ResidualMoment => 3,
        }
    }

    /// Words of the field over all nodes.
    fn node_field_words(&self, field: NodeField) -> (r: usize)
        requires
            3 * self.numnp <= usize::MAX,
        ensures
            r == self@.node_field_words(field),
    {
        if !self.has_node_field(field) {
            0
        } else if self.node_field_width(field) == 3 {
            3 * self.numnp
        } else {
            self.numnp
        }
    }

    /// Word offset, in a state, of the deletion flags.
    pub fn deletion_off(&self) -> (r: usize)
        requires
            self.wf(),
        ensures
            r == self@.deletion_off(),
    {
        proof {
            lemma_state_terms(self@);
        }
        TIME_WORDS + self.nglbv + self.node_data_words() + self.solid_thermal_words()
            + self.element_words()
    }

    /// Word offset, in a state, of the SPH block.
    pub fn sph_off(&self) -> (r: usize)
        requires
            self.wf(),
        ensures
            r == self@.sph_off(),
    {
        proof {
            lemma_state_terms(self@);
        }
        self.deletion_off() + self.deletion_words()
    }

    /// Words of the SPH block.
    pub fn sph_words(&self) -> (r: usize)
        requires
            self.wf(),
        ensures
            r == self@.sph_words(),
    {
        proof {
            lemma_state_terms(self@);
        }
        self.nmsph * self.n_sph_vars
    }

    /// Word offset, in a state, of the airbag block.
    pub fn airbag_off(&self) -> (r: usize)
        requires
            self.wf(),
        ensures
            r == self@.airbag_off(),
    {
        proof {
            lemma_state_terms(self@);
        }
        self.sph_off() + self.sph_words()
    }

    /// Words of the airbag block.
    pub fn airbag_words(&self) -> (r: usize)
        requires
            self.wf(),
        ensures
            r == self@.airbag_words(),
    {
        proof {
            lemma_state_terms(self@);
        }
        self.n_airbags * self.n_airbag_state_vars + self.n_particles * self.n_particle_state_vars
    }

    /// Word offset, in a state, of the rigid road block.
    pub fn road_off(&self) -> (r: usize)
        requires
            self.wf(),
        ensures
            r == self@.road_off(),
    {
        proof {
            lemma_state_terms(self@);
        }
        self.airbag_off() + self.airbag_words()
    }

    /// Word offset, in a state, of the rigid-body motion block.
    pub fn rigid_off(&self) -> (r: usize)
        requires
            self.wf(),
        ensures
            r == self@.rigid_off(),
    {
        proof {
            lemma_state_terms(self@);
        }
        self.road_off() + self.n_roads * 6
    }

    /// Words per rigid body.
    pub fn rigid_vars(&self) -> (r: usize)
        ensures
            r == self@.rigid_vars(),
    {
        if self.reduced_rigid {
            12
        } else {
            24
        }
    }
}

/// The auxiliary node fields fill the thermal words of a node exactly.
pub proof fn lemma_node_field_words(v: ControlView)
    requires
        v.numnp >= 0,
    ensures
        v.node_field_words(NodeField::Temperature) + v.node_field_words(NodeField::HeatFlux)
            + v.node_field_words(NodeField::MassScaling) + v.node_field_words(
            NodeField::TemperatureGradient,
        ) + v.node_field_words(NodeField::ResidualForce) + v.node_field_words(
            NodeField::ResidualMoment,
        ) == v.node_therm_vars() * (v.numnp as nat),
{
    let n = v.numnp as nat;
    let temp: nat = if 1 <= v.it % 10 <= 3 {
        v.node_field_width(NodeField::Temperature)
    } else {
        0
    };
    let flux: nat = if 2 <= v.it % 10 <= 3 { 3 } else { 0 };
    let mass: nat = if (v.it / 10) % 10 == 1 { 1 } else { 0 };
    let grad: nat = if v.idtdt % 10 == 1 { 1 } else { 0 };
    let resid: nat = if (v.idtdt / 10) % 10 == 1 { 3 } else { 0 };
    assert(temp + flux + mass + grad + resid + resid == v.node_therm_vars());
    assert((temp + flux + mass + grad + resid + resid) * n == temp * n + flux * n + mass * n + grad
        * n + resid * n + resid * n) by (nonlinear_arith);
    assert(0 * n == 0 && 1 * n == n);
}

} // verus!
