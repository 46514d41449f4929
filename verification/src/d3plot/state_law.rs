//! Where the values of a state stand: the word, counted from the start of the state, of
//! each value that can be asked for.

use crate::d3plot::control::{lemma_node_field_words, lemma_state_terms, ControlView};
use crate::d3plot::query::AirbagState;
use crate::d3plot::block::ResultBlock;
use crate::d3plot::reader::D3plot;
use crate::d3plot::words::float_at;
use crate::d3plot::{GlobalField, NodeField, PartField, StateBlock};
use vstd::prelude::*;

verus! {

/// The double in word `k` of state `s`; word 0 is the first of the state.
pub open spec fn state_word(d: D3plot, s: int, k: int) -> u64 {
    let at = d.states@[s];
    float_at(
        d.files@[at.file as int]@,
        at.offset + k * d.ctrl.wordsize,
        d.ctrl.wordsize as nat,
    )
}

/// `data` holds the words of state `s` from word `k` on.
pub open spec fn are_words(d: D3plot, s: int, k: int, data: Seq<u64>) -> bool {
    forall|i: int| 0 <= i < data.len() ==> #[trigger] data[i] == state_word(d, s, k + i)
}

proof fn lemma_floats(d: D3plot, s: int, off: nat, n: nat)
    requires
        d.wf(),
        0 <= s < d.states@.len(),
    ensures
        d.state_floats(s, off, n).len() == n,
        are_words(d, s, off as int, d.state_floats(s, off, n)),
{
    d.lemma_place(s);
    let v = d.state_floats(s, off, n);
    let ws = d.ctrl@.wordsize;
    assert forall|i: int| 0 <= i < v.len() implies #[trigger] v[i] == state_word(d, s, off + i) by {
        assert((off + i) * ws == off * ws + i * ws) by (nonlinear_arith);
    }
}

proof fn lemma_gathered(d: D3plot, m: nat, off: nat, n: nat, s: int, i: int)
    requires
        d.wf(),
        m <= d.states@.len(),
        0 <= s < m,
        0 <= i < n,
    ensures
        ({
            let g = d.gather(d.every_state().take(m as int), off, n);
            &&& g.len() == m * n
            &&& 0 <= s * n + i < m * n
            &&& g[s * n + i] == state_word(d, s, off + i)
        }),
    decreases m,
{
    let sel = d.every_state().take(m as int);
    let k = (m - 1) as nat;
    assert(sel.drop_last() =~= d.every_state().take(k as int));
    assert(d.states@.len() == d.states.len());
    assert(sel.last() == k as usize);
    lemma_floats(d, k as int, off, n);
    assert(m * n == k * n + n && 0 <= k * n) by (nonlinear_arith)
        requires
            m == k + 1,
    ;
    assert(0 <= s * n && s * n + n <= m * n) by (nonlinear_arith)
        requires
            0 <= s < m,
    ;
    if k > 0 {
        lemma_gathered(d, k, off, n, if s < k { s } else { 0 }, i);
    } else {
        assert(0 * n == 0);
        assert(d.gather(sel.drop_last(), off, n) =~= Seq::empty());
    }
    if s < k {
        assert(s * n + n <= k * n) by (nonlinear_arith)
            requires
                0 <= s < k,
        ;
    } else {
        assert(s * n == k * n);
        assert(d.state_floats(k as int, off, n)[i] == state_word(d, k as int, off + i));
    }
}

proof fn lemma_history(d: D3plot, off: nat, n: nat, s: int, i: int)
    requires
        d.wf(),
        0 <= s < d.states@.len(),
        0 <= i < n,
    ensures
        ({
            let g = d.gather(d.every_state(), off, n);
            &&& g.len() == d.states@.len() * n
            &&& 0 <= s * n + i < g.len()
            &&& g[s * n + i] == state_word(d, s, off + i)
        }),
{
    let m = d.states@.len();
    lemma_gathered(d, m, off, n, s, i);
    assert(d.every_state().take(m as int) =~= d.every_state());
}

/// `r` has one value for each state, that of state `s` is its word `k`; it is absent
/// when there are fewer than `k` global variables.
pub open spec fn is_scalar_history(d: D3plot, r: Option<Vec<u64>>, k: int, s: int) -> bool {
    &&& r is Some <==> d.ctrl.nglbv >= k
    &&& r is Some ==> (r->0)@.len() == d.states@.len() && (r->0)@[s] == state_word(d, s, k)
}

/// Behind the time word of a state stand the kinetic energy, the internal energy, the
/// total energy and the velocities in x, y and z, in words 1 to 6.
pub proof fn law_global_history(d: D3plot, field: GlobalField, r: Option<Vec<u64>>, s: int)
    requires
        d.wf(),
        d.is_global_history(field, r),
        0 <= s < d.states@.len(),
    ensures
        field is KineticEnergy ==> is_scalar_history(d, r, 1, s),
        field is InternalEnergy ==> is_scalar_history(d, r, 2, s),
        field is TotalEnergy ==> is_scalar_history(d, r, 3, s),
        field is VelocityX ==> is_scalar_history(d, r, 4, s),
        field is VelocityY ==> is_scalar_history(d, r, 5, s),
        field is VelocityZ ==> is_scalar_history(d, r, 6, s),
{
    let k: nat = match field {
        GlobalField::KineticEnergy => 1,
        GlobalField::InternalEnergy => 2,
        GlobalField::TotalEnergy => 3,
        GlobalField::VelocityX => 4,
        GlobalField::VelocityY => 5,
        GlobalField::VelocityZ => 6,
    };
    lemma_history(d, k, 1, s, 0);
}

/// `r` has a value for each state and part, that of part `p` in state `s` is word
/// `k + p` of the state; it is absent without parts, and when the global variables end
/// before those of the last part.
pub open spec fn is_part_history(
    d: D3plot,
    r: Option<ResultBlock>,
    k: int,
    s: int,
    p: int,
) -> bool {
    let n = d.ctrl.nmmat;
    &&& r is Some <==> n > 0 && d.ctrl.nglbv >= k - 1 + n
    &&& r matches Some(b) ==> {
        &&& b.dims@ == seq![d.states@.len() as usize, n]
        &&& b.components@.len() == 0
        &&& b.data@.len() == d.states@.len() * n
        &&& b.data@[s * n + p] == state_word(d, s, k + p)
    }
}

/// Behind the six scalars stand seven values for each part, one kind after the other:
/// the internal energy, the kinetic energy, three velocities, the mass and the hourglass
/// energy.
pub proof fn law_part_history(
    d: D3plot,
    field: PartField,
    r: Option<ResultBlock>,
    s: int,
    p: int,
)
    requires
        d.wf(),
        d.is_part_field_history(field, r),
        0 <= s < d.states@.len(),
        0 <= p < d.ctrl.nmmat,
    ensures
        ({
            let n = d.ctrl.nmmat;
            &&& field is InternalEnergy ==> is_part_history(d, r, 7, s, p)
            &&& field is KineticEnergy ==> is_part_history(d, r, 7 + n, s, p)
            &&& field is Mass ==> is_part_history(d, r, 7 + 5 * n, s, p)
            &&& field is HourglassEnergy ==> is_part_history(d, r, 7 + 6 * n, s, p)
        }),
{
    let n = d.ctrl@.nmmat;
    let k: nat = match field {
        PartField::InternalEnergy => 7,
        PartField::KineticEnergy => 7 + n,
        PartField::Mass => 7 + 5 * n,
        PartField::HourglassEnergy => 7 + 6 * n,
    };
    lemma_history(d, k, n, s, p);
}

/// Words of a node vector that is present when its flag is not 0.
pub open spec fn vector(v: ControlView, f: int) -> int {
    if f != 0 {
        3 * v.numnp
    } else {
        0
    }
}

/// Words of `per` values for each node that are there when `has` holds.
pub open spec fn node_run(v: ControlView, has: bool, per: int) -> int {
    if has {
        per * v.numnp
    } else {
        0
    }
}

/// A state is made of runs of words that leave no gap: the time, the global variables,
/// the displacements, the auxiliary node fields, the velocities, the accelerations, the
/// thermal values of the solids, the results of solids, thick shells, beams and shells,
/// the deletion flags, particles, airbags, roads and rigid bodies.
pub proof fn law_state_is_tiled(v: ControlView)
    requires
        v.fits(),
    ensures
        ({
            let disp = v.block_place(StateBlock::Displacement);
            let vel = v.block_place(StateBlock::Velocity);
            let acc = v.block_place(StateBlock::Acceleration);
            let solid = v.block_place(StateBlock::Solid);
            let tshell = v.block_place(StateBlock::ThickShell);
            let beam = v.block_place(StateBlock::Beam);
            let shell = v.block_place(StateBlock::Shell);
            let temp = v.node_field_off(NodeField::Temperature);
            let flux = v.node_field_off(NodeField::HeatFlux);
            let mass = v.node_field_off(NodeField::MassScaling);
            let grad = v.node_field_off(NodeField::TemperatureGradient);
            let force = v.node_field_off(NodeField::ResidualForce);
            let moment = v.node_field_off(NodeField::ResidualMoment);
            let it = v.it % 10;
            let scaled = (v.it / 10) % 10 == 1;
            let rest = (v.idtdt / 10) % 10 == 1;
            let data_shells = if v.nel4 > v.n_rigid_shells {
                v.nel4 - v.n_rigid_shells
            } else {
                0
            };
            &&& disp == (1 + v.nglbv, v.numnp as nat, 3nat)
            &&& temp == disp.0 + vector(v, v.iu)
            &&& flux == temp + node_run(v, 1 <= it <= 2, 1) + node_run(v, it == 3, 3)
            &&& mass == flux + node_run(v, 2 <= it <= 3, 3)
            &&& grad == mass + node_run(v, scaled, 1)
            &&& force == grad + node_run(v, v.idtdt % 10 == 1, 1)
            &&& moment == force + node_run(v, rest, 3)
            &&& vel == ((moment + node_run(v, rest, 3)) as nat, v.numnp as nat, 3nat)
            &&& acc == ((vel.0 + vector(v, v.iv)) as nat, v.numnp as nat, 3nat)
            &&& solid == (
                (acc.0 + vector(v, v.ia) + v.nt3d * v.nel8) as nat,
                v.nel8,
                v.nv3d,
            )
            &&& tshell == (solid.0 + v.nel8 * v.nv3d, v.nelth, v.nv3dt)
            &&& beam == (tshell.0 + v.nelth * v.nv3dt, v.nel2, v.nv1d)
            &&& shell == (beam.0 + v.nel2 * v.nv1d, data_shells as nat, v.nv2d)
            &&& v.deletion_off() == shell.0 + data_shells * v.nv2d
            &&& v.maxint >= 0 ==> v.sph_off() == v.deletion_off()
            &&& -10000 < v.maxint < 0 ==> v.sph_off() == v.deletion_off() + v.numnp
            &&& v.maxint <= -10000 ==> v.sph_off() == v.deletion_off() + v.nel8 + v.nelth + v.nel4
                + v.nel2
            &&& v.airbag_off() == v.sph_off() + v.nmsph * v.n_sph_vars
            &&& v.road_off() == v.airbag_off() + v.n_airbags * v.n_airbag_state_vars + v.n_particles
                * v.n_particle_state_vars
            &&& v.rigid_off() == v.road_off() + 6 * v.n_roads
            &&& v.reduced_rigid ==> v.state_words() == v.rigid_off() + 12 * v.n_rigids
            &&& !v.reduced_rigid ==> v.state_words() == v.rigid_off() + 24 * v.n_rigids
            &&& v.bytes_per_state() == v.state_words() * v.wordsize
        }),
{
    lemma_state_terms(v);
    lemma_node_field_words(v);
    let n = v.numnp as nat;
    assert(1 * n == n && 3 * n == n + n + n);
    assert(v.n_rigids * 12 == 12 * v.n_rigids && v.n_rigids * 24 == 24 * v.n_rigids);
}

/// The flags that say what a state carries. The layer word counts the layers of a shell;
/// it is negative for deletion flags of the nodes, and 10000 lower for those of the
/// elements.
pub proof fn law_flags(v: ControlView)
    ensures
        v.maxint >= 0 ==> v.mdlopt() == 0 && v.n_shell_layers() == v.maxint,
        -10000 < v.maxint < 0 ==> v.mdlopt() == 1 && v.n_shell_layers() == -v.maxint,
        v.maxint <= -10000 ==> v.mdlopt() == 2 && v.n_shell_layers() == -v.maxint - 10000,
        v.has_block(StateBlock::Displacement) <==> v.iu != 0 && v.numnp as nat > 0,
        v.has_block(StateBlock::Velocity) <==> v.iv != 0 && v.numnp as nat > 0,
        v.has_block(StateBlock::Acceleration) <==> v.ia != 0 && v.numnp as nat > 0,
        v.has_block(StateBlock::Solid) <==> v.nel8 > 0 && v.nv3d > 0,
        v.has_block(StateBlock::ThickShell) <==> v.nelth > 0 && v.nv3dt > 0,
        v.has_block(StateBlock::Beam) <==> v.nel2 > 0 && v.nv1d > 0,
        v.has_block(StateBlock::Shell) <==> v.nel4 > v.n_rigid_shells && v.nv2d > 0,
        v.has_node_field(NodeField::Temperature) <==> v.it % 10 == 1 || v.it % 10 == 2 || v.it % 10
            == 3,
        v.has_node_field(NodeField::HeatFlux) <==> v.it % 10 == 2 || v.it % 10 == 3,
        v.has_node_field(NodeField::MassScaling) <==> (v.it / 10) % 10 == 1,
        v.has_node_field(NodeField::TemperatureGradient) <==> v.idtdt % 10 == 1,
        v.has_node_field(NodeField::ResidualForce) <==> (v.idtdt / 10) % 10 == 1,
        v.has_node_field(NodeField::ResidualMoment) <==> (v.idtdt / 10) % 10 == 1,
        v.it % 10 == 3 ==> v.node_field_width(NodeField::Temperature) == 3,
        v.it % 10 != 3 ==> v.node_field_width(NodeField::Temperature) == 1,
        v.node_field_width(NodeField::HeatFlux) == 3,
        v.node_field_width(NodeField::MassScaling) == 1,
        v.node_field_width(NodeField::TemperatureGradient) == 1,
        v.node_field_width(NodeField::ResidualForce) == 3,
        v.node_field_width(NodeField::ResidualMoment) == 3,
{
}

/// `r` holds `n` flags from word `k` of the state on.
pub open spec fn are_flags(d: D3plot, r: Option<Vec<u64>>, s: int, k: int, n: int) -> bool {
    r matches Some(f) ==> f@.len() == n && are_words(d, s, k, f@)
}

/// The deletion flags of solids, thick shells, shells and beams stand one family behind
/// the other, in this order. Those of the nodes take their place when nodes are deleted.
pub proof fn law_deletion_flags(
    d: D3plot,
    block: StateBlock,
    s: usize,
    r: Option<Vec<u64>>,
    q: Option<Vec<u64>>,
)
    requires
        d.wf(),
        s < d.states@.len(),
        d.is_element_alive(block, s, r),
        d.is_node_alive(s, q),
    ensures
        ({
            let v = d.ctrl@;
            let at = v.deletion_off() as int;
            let shells = v.block_place(StateBlock::Shell).1 as int;
            let count: int = match block {
                StateBlock::Solid => v.nel8 as int,
                StateBlock::ThickShell => v.nelth as int,
                StateBlock::Shell => shells,
                StateBlock::Beam => v.nel2 as int,
                _ => 0,
            };
            let on_nodes = -10000 < v.maxint < 0;
            &&& r is Some <==> v.maxint <= -10000 && count > 0
            &&& block is Solid ==> are_flags(d, r, s as int, at, count)
            &&& block is ThickShell ==> are_flags(d, r, s as int, at + v.nel8, count)
            &&& block is Shell ==> are_flags(d, r, s as int, at + v.nel8 + v.nelth, count)
            &&& block is Beam ==> are_flags(d, r, s as int, at + v.nel8 + v.nelth + shells, count)
            &&& q is Some <==> on_nodes
            &&& are_flags(d, q, s as int, at, v.numnp)
        }),
{
    let v = d.ctrl@;
    let shells = v.n_shells_with_data();
    let (before, n): (nat, nat) = match block {
        StateBlock::Solid => (0, v.nel8),
        StateBlock::ThickShell => (v.nel8, v.nelth),
        StateBlock::Shell => (v.nel8 + v.nelth, shells),
        StateBlock::Beam => (v.nel8 + v.nelth + shells, v.nel2),
        _ => (0, 0),
    };
    lemma_floats(d, s as int, v.deletion_off() + before, n);
    lemma_floats(d, s as int, v.deletion_off(), d.ctrl.numnp as nat);
}

/// `r` is a table of `rows` by `cols` unnamed values, that hold the words of the state
/// from word `k` on.
pub open spec fn is_table(
    d: D3plot,
    r: Option<ResultBlock>,
    s: int,
    k: int,
    rows: usize,
    cols: usize,
) -> bool {
    r matches Some(b) ==> {
        &&& b.dims@ == seq![rows, cols]
        &&& b.components@.len() == 0
        &&& b.data@.len() == rows * cols
        &&& are_words(d, s, k, b.data@)
    }
}

/// Particles, roads and rigid bodies have a row of values each: as many as the SPH flags
/// say for a particle, six for a road surface, 12 or 24 for a body.
pub proof fn law_trailing_tables(
    d: D3plot,
    s: usize,
    sph: Option<ResultBlock>,
    road: Option<ResultBlock>,
    body: Option<ResultBlock>,
)
    requires
        d.wf(),
        s < d.states@.len(),
        d.is_sph_state(s, sph),
        d.is_rigid_road_state(s, road),
        d.is_rigid_body_motion(s, body),
    ensures
        ({
            let c = d.ctrl;
            let v = d.ctrl@;
            let t = s as int;
            &&& sph is Some <==> c.nmsph > 0
            &&& is_table(d, sph, t, v.sph_off() as int, c.nmsph, c.n_sph_vars)
            &&& road is Some <==> c.n_roads > 0
            &&& is_table(d, road, t, v.road_off() as int, c.n_roads, 6)
            &&& body is Some <==> c.n_rigids > 0
            &&& c.reduced_rigid ==> is_table(d, body, t, v.rigid_off() as int, c.n_rigids, 12)
            &&& !c.reduced_rigid ==> is_table(d, body, t, v.rigid_off() as int, c.n_rigids, 24)
        }),
{
    let v = d.ctrl@;
    lemma_floats(d, s as int, v.sph_off(), v.sph_words());
    lemma_floats(d, s as int, v.road_off(), 6 * v.n_roads);
    lemma_floats(d, s as int, v.rigid_off(), v.rigid_words());
}

/// The values of the airbag chambers stand before those of the particles.
pub proof fn law_airbag_tables(d: D3plot, s: usize, r: Option<AirbagState>)
    requires
        d.wf(),
        s < d.states@.len(),
        d.is_airbag_state(s, r),
    ensures
        ({
            let c = d.ctrl;
            let at = d.ctrl@.airbag_off() as int;
            let n = c.n_airbags * c.n_airbag_state_vars;
            &&& r is Some <==> c.n_airbags > 0
            &&& r matches Some(a) ==> {
                &&& a.airbag_dims@ == seq![c.n_airbags, c.n_airbag_state_vars]
                &&& a.particle_dims@ == seq![c.n_particles, c.n_particle_state_vars]
                &&& a.airbag@.len() == n
                &&& a.particle@.len() == c.n_particles * c.n_particle_state_vars
                &&& are_words(d, s as int, at, a.airbag@)
                &&& are_words(d, s as int, at + n, a.particle@)
            }
        }),
{
    let v = d.ctrl@;
    let n = v.n_airbags * v.n_airbag_state_vars;
    lemma_floats(d, s as int, v.airbag_off(), n);
    lemma_floats(d, s as int, v.airbag_off() + n, v.n_particles * v.n_particle_state_vars);
}

/// The names of the three directions of a vector.
pub open spec fn are_directions(names: Seq<String>) -> bool {
    names.len() == 3 && names[0]@ == seq!['x'] && names[1]@ == seq!['y'] && names[2]@ == seq!['z']
}

/// The rigid walls stand behind the six scalars and the seven values of each part: the
/// forces first, and the positions behind them, three directions for each wall.
pub proof fn law_walls(
    d: D3plot,
    s: usize,
    force: Option<ResultBlock>,
    position: Option<ResultBlock>,
)
    requires
        d.wf(),
        s < d.states@.len(),
        d.is_rigid_wall_force(s, force),
        d.is_rigid_wall_position(s, position),
    ensures
        ({
            let n = d.ctrl.n_rigid_walls;
            let at = 7 + 7 * d.ctrl.nmmat;
            &&& force is Some <==> n > 0
            &&& force matches Some(b) ==> {
                &&& b.dims@ == seq![n]
                &&& b.components@.len() == 0
                &&& b.data@.len() == n
                &&& are_words(d, s as int, at, b.data@)
            }
            &&& position is Some <==> n > 0 && d.ctrl.n_rigid_wall_vars == 4
            &&& position matches Some(b) ==> {
                &&& b.dims@ == seq![n, 3usize]
                &&& are_directions(b.components@)
                &&& b.data@.len() == 3 * n
                &&& are_words(d, s as int, at + n, b.data@)
            }
        }),
{
    reveal_strlit("x");
    reveal_strlit("y");
    reveal_strlit("z");
    let n = d.ctrl@.n_rigid_walls;
    let at = 7 + 7 * d.ctrl@.nmmat;
    lemma_floats(d, s as int, at, n);
    lemma_floats(d, s as int, at + n, 3 * n);
    if let Some(b) = position {
        assert(b.components@[0]@ =~= seq!['x']);
        assert(b.components@[1]@ =~= seq!['y']);
        assert(b.components@[2]@ =~= seq!['z']);
    }
}

/// An auxiliary node field has a row for each node, and the directions name its values
/// when there are three.
pub proof fn law_node_field(d: D3plot, field: NodeField, s: usize, r: Option<ResultBlock>)
    requires
        d.wf(),
        s < d.states@.len(),
        d.is_node_field(field, s, r),
    ensures
        ({
            let per = d.ctrl@.node_field_width(field);
            &&& r is Some <==> d.ctrl@.has_node_field(field)
            &&& r matches Some(b) ==> {
                &&& b.dims@ == seq![d.ctrl.numnp, per as usize]
                &&& per == 1 ==> b.components@.len() == 0
                &&& per == 3 ==> are_directions(b.components@)
                &&& b.data@.len() == per * d.ctrl.numnp
                &&& are_words(d, s as int, d.ctrl@.node_field_off(field) as int, b.data@)
            }
        }),
{
    reveal_strlit("x");
    reveal_strlit("y");
    reveal_strlit("z");
    let per = d.ctrl@.node_field_width(field);
    lemma_floats(d, s as int, d.ctrl@.node_field_off(field), per * d.ctrl.numnp as nat);
    if let Some(b) = r {
        if per == 3 {
            assert(b.components@[0]@ =~= seq!['x']);
            assert(b.components@[1]@ =~= seq!['y']);
            assert(b.components@[2]@ =~= seq!['z']);
        }
    }
}

} // verus!
