//! Which words of the base file say what: the header, the sections of the geometry, the
//! connectivity and the user numbers.

use crate::d3plot::control::{lemma_state_terms, ControlView};
use crate::d3plot::header::{
    control_of, header_of, road_end, rigid_end, sph_vars, walked, word_size_of,
};
use crate::d3plot::mesh::{entries_at, record_nodes, titles_from};
use crate::d3plot::reader::D3plot;
use crate::d3plot::words::{int_at, ints_at};
use crate::d3plot::StateBlock;
use crate::text::{text_of, trimmed};
use vstd::prelude::*;

verus! {

/// The integer in word `k` of the bytes.
pub open spec fn word(b: Seq<u8>, ws: nat, k: int) -> int {
    int_at(b, k * ws, ws)
}

/// The larger of a number and 0.
pub open spec fn at_least_zero(n: int) -> int {
    if n < 0 {
        0
    } else {
        n
    }
}

/// The words of the control block by their number in the file. Counts are read as 0 when
/// they are negative.
pub proof fn law_header_words(b: Seq<u8>, ws: nat)
    ensures
        ({
            let h = header_of(b, ws);
            let n = |k: int| at_least_zero(word(b, ws, k));
            &&& h.wordsize == ws
            &&& h.filetype == word(b, ws, 11)
            &&& h.ndim == word(b, ws, 15)
            &&& h.numnp == word(b, ws, 16)
            &&& h.nglbv == n(18)
            &&& h.it == word(b, ws, 19)
            &&& h.iu == word(b, ws, 20)
            &&& h.iv == word(b, ws, 21)
            &&& h.ia == word(b, ws, 22)
            &&& h.nel8 == n(23)
            &&& h.nv3d == n(27)
            &&& h.nel2 == n(28)
            &&& h.nv1d == n(30)
            &&& h.nel4 == n(31)
            &&& word(b, ws, 33) >= 0 ==> h.nv2d == word(b, ws, 33) && !h.fsifor
            &&& word(b, ws, 33) < 0 ==> h.nv2d == -word(b, ws, 33) && h.fsifor
            &&& h.neips == n(35)
            &&& h.maxint == word(b, ws, 36)
            &&& h.nmsph == n(37)
            &&& h.narbs == n(39)
            &&& h.nelth == n(40)
            &&& h.nv3dt == n(42)
            &&& h.ioshl1 == word(b, ws, 43)
            &&& h.ioshl2 == word(b, ws, 44)
            &&& h.ioshl3 == word(b, ws, 45)
            &&& h.ioshl4 == word(b, ws, 46)
            &&& h.ialemat == n(47)
            &&& h.nmmat == n(51)
            &&& h.npefg == word(b, ws, 54)
            &&& h.nel48 == n(55)
            &&& h.idtdt == word(b, ws, 56)
            &&& h.extra == n(57)
            &&& h.nwear == n(59)
            &&& h.npresu == n(60)
            &&& h.nshear == n(61)
            &&& h.nforce == n(62)
            &&& h.ngapc == n(63)
            &&& n(57) >= 2 ==> h.nt3d == n(65)
            &&& n(57) < 2 ==> h.nt3d == 0
            &&& h.ndim == 5 || h.ndim == 7 ==> h.n_rigid_shells == n(64 + n(57))
            &&& h.ndim != 5 && h.ndim != 7 ==> h.n_rigid_shells == 0
        }),
{
}

/// The global variables that the scalars and the parts leave over belong to the rigid
/// walls: four to a wall when they can be shared out so, one to a wall otherwise.
pub proof fn law_header_walls(b: Seq<u8>, ws: nat, t: nat)
    requires
        at_least_zero(word(b, ws, 18)) == 6 + 7 * at_least_zero(word(b, ws, 51)) + t,
    ensures
        ({
            let h = header_of(b, ws);
            &&& h.n_rigid_walls * h.n_rigid_wall_vars == t
            &&& t > 0 && t % 4 == 0 ==> h.n_rigid_wall_vars == 4
            &&& t % 4 != 0 ==> h.n_rigid_wall_vars == 1
            &&& t == 0 ==> h.n_rigid_walls == 0
        }),
{
    assert(t % 4 == 0 ==> (t / 4) * 4 == t);
    assert((t / 1) * 1 == t);
}

/// A file is a database when the dimension word is 2 to 9, in words of four bytes or,
/// failing that, of eight, and when the header is whole.
pub proof fn law_word_size(b: Seq<u8>)
    ensures
        ({
            let four = b.len() >= 64 && 2 <= int_at(b, 60, 4) <= 9;
            let eight = b.len() >= 128 && 2 <= int_at(b, 120, 8) <= 9;
            &&& four ==> word_size_of(b) == Some(4nat)
            &&& !four && eight ==> word_size_of(b) == Some(8nat)
            &&& !four && !eight ==> control_of(b) is None
            &&& control_of(b) matches Some(v) ==> {
                let ws = v.wordsize;
                &&& word_size_of(b) == Some(ws)
                &&& b.len() >= 64 * ws
                &&& word(b, ws, 57) > 1 ==> b.len() >= 66 * ws
                &&& v.numnp == word(b, ws, 16)
                &&& v.nglbv == at_least_zero(word(b, ws, 18))
            }
            &&& four && b.len() >= 264 ==> control_of(b) is Some
            &&& !four && eight && b.len() >= 528 ==> control_of(b) is Some
        }),
{
    reveal(control_of);
}

/// Number of words of the material types, for the dimensions that have them.
pub open spec fn material_words(h: ControlView) -> int {
    if h.ndim == 5 || h.ndim == 7 {
        2 + h.nmmat as int
    } else {
        0
    }
}

/// Without particles and airbags the coordinates stand behind the header, its extra
/// words, the material types and the list of ALE materials. The connectivity of solids,
/// thick shells, beams and shells and the user numbers follow, and the geometry ends with
/// the extra nodes of the 8-node shells.
pub proof fn law_plain_geometry(b: Seq<u8>, ws: nat)
    requires
        ws > 0,
    ensures
        ({
            let h = header_of(b, ws);
            let v = walked(b, h);
            let c = 64 + h.extra + material_words(h) + h.ialemat;
            let end = c + 3 * at_least_zero(h.numnp) + 9 * h.nel8 + 9 * h.nelth + 6 * h.nel2 + 5
                * h.nel4 + h.narbs;
            &&& h.numnp >= 0 && h.nmsph == 0 && h.npefg <= 0 && h.ndim != 6 && h.ndim != 8 && h.ndim
                != 9 ==> {
                &&& v.coord_off == c * ws
                &&& v.geom_bytes == (end + 5 * h.nel48) * ws
                &&& v.n_sph_vars == 0
                &&& v.n_airbags == 0
                &&& v.n_rigids == 0
                &&& v.n_roads == 0
                &&& !v.reduced_rigid
            }
        }),
{
}

/// The flags of the particles stand before the coordinates, and those of the airbags
/// behind them. The first flag of the particles counts the flags.
pub proof fn law_particle_flags(b: Seq<u8>, ws: nat)
    requires
        ws > 0,
    ensures
        ({
            let h = header_of(b, ws);
            let v = walked(b, h);
            let f = 64 + h.extra + material_words(h) + h.ialemat;
            let a = f + (if h.nmsph > 0 {
                at_least_zero(word(b, ws, f))
            } else {
                0
            });
            let n = |k: int| at_least_zero(word(b, ws, k));
            let marked = if h.npefg / 1000 == 4 {
                1int
            } else {
                0int
            };
            &&& h.npefg <= 0 ==> v.coord_off == a * ws
            &&& 0 < h.npefg <= 10_000_000 ==> {
                &&& v.n_airbags == h.npefg % 1000
                &&& v.n_geom_vars == n(a)
                &&& v.n_particle_state_vars == n(a + 1)
                &&& v.n_particles == n(a + 2)
                &&& v.n_airbag_state_vars == n(a + 3)
                &&& v.coord_off == (a + 4 + marked + 9 * (n(a) + n(a + 1) + n(a + 3))) * ws
            }
        }),
{
}

/// A particle has one value more than its flags say: nine counts, the eighth by its size,
/// and a tenth where the list has more than ten words.
pub proof fn law_particle_values(b: Seq<u8>, ws: nat, p: int)
    requires
        forall|k: int| 0 <= k <= 10 ==> #[trigger] word(b, ws, p + k) >= 0,
    ensures
        ({
            let f = |k: int| word(b, ws, p + k);
            let nine = f(1) + f(2) + f(3) + f(4) + f(5) + f(6) + f(7) + f(8) + f(9);
            &&& f(0) == 10 ==> sph_vars(b, ws, p) == nine + 1
            &&& f(0) != 10 ==> sph_vars(b, ws, p) == nine + f(10) + 1
        }),
{
    assert(word(b, ws, p + 1) >= 0 && word(b, ws, p + 2) >= 0 && word(b, ws, p + 3) >= 0);
    assert(word(b, ws, p + 4) >= 0 && word(b, ws, p + 5) >= 0 && word(b, ws, p + 6) >= 0);
    assert(word(b, ws, p + 7) >= 0 && word(b, ws, p + 8) >= 0 && word(b, ws, p + 9) >= 0);
    assert(word(b, ws, p + 10) >= 0);
}

/// Rigid bodies stand behind the user numbers in files of dimension 8 or 9, and rigid
/// roads behind particles and airbags in those of dimension 6 or 9. Each section starts
/// with its counts.
pub proof fn law_rigid_sections(b: Seq<u8>, ws: nat)
    requires
        ws > 0,
    ensures
        ({
            let h = header_of(b, ws);
            let v = walked(b, h);
            let n = |k: int| at_least_zero(word(b, ws, k));
            let mesh = 3 * h.numnp + 9 * h.nel8 + 9 * h.nelth + 6 * h.nel2 + 5 * h.nel4 + h.narbs;
            let c = 64 + h.extra + material_words(h) + h.ialemat;
            let p = c + mesh;
            let plain = h.nmsph == 0 && h.npefg <= 0 && h.numnp >= 0;
            &&& plain && h.ndim == 8 ==> {
                &&& v.n_rigids == n(p)
                &&& v.n_roads == 0
                &&& !v.reduced_rigid
                &&& v.geom_bytes == (rigid_end(b, ws, (p + 1) as nat, n(p) as nat) + 5 * h.nel48) * ws
            }
            &&& plain && h.ndim == 6 ==> {
                &&& v.n_rigids == 0
                &&& v.n_roads == n(p + 2)
                &&& !v.reduced_rigid
                &&& v.geom_bytes == (road_end(
                    b,
                    ws,
                    (p + 4 + 4 * n(p)) as nat,
                    n(p + 2) as nat,
                ) + 5 * h.nel48) * ws
            }
            &&& plain && h.ndim == 9 ==> {
                let q = rigid_end(b, ws, (p + 1) as nat, n(p) as nat) as int;
                &&& v.n_rigids == n(p)
                &&& v.n_roads == n(q + 2)
                &&& v.reduced_rigid
            }
        }),
{
}

/// A rigid body takes its part, the number of its nodes and the nodes, and the number of
/// its active nodes and these; a road surface its id, the number of its segments and four
/// words for each.
pub proof fn law_rigid_records(b: Seq<u8>, ws: nat, p: nat, n: nat)
    ensures
        ({
            let nodes = at_least_zero(word(b, ws, p as int + 1));
            let active = at_least_zero(word(b, ws, p as int + 2 + nodes));
            let segments = at_least_zero(word(b, ws, p as int + 1));
            &&& rigid_end(b, ws, p, 0) == p
            &&& rigid_end(b, ws, p, n + 1) == rigid_end(
                b,
                ws,
                (p + 3 + nodes + active) as nat,
                n,
            )
            &&& road_end(b, ws, p, 0) == p
            &&& road_end(b, ws, p, n + 1) == road_end(b, ws, (p + 2 + 4 * segments) as nat, n)
        }),
{
}

proof fn lemma_record(raw: Seq<i64>, per: nat, n: nat, e: int, j: int)
    requires
        0 <= e < n,
        0 <= j < per,
        n * (per + 1) <= raw.len(),
    ensures
        record_nodes(raw, per, n).len() == n * per,
        0 <= e * per + j < n * per,
        record_nodes(raw, per, n)[e * per + j] == raw[e * (per + 1) + j],
    decreases n,
{
    reveal_with_fuel(record_nodes, 2);
    let m = (n - 1) as nat;
    let at = m * (per + 1);
    assert(n * per == m * per + per && 0 <= m * per && n * (per + 1) == at + per + 1 && 0 <= at)
        by (nonlinear_arith)
        requires
            n == m + 1,
            at == m * (per + 1),
    ;
    assert(0 <= e * per && e * per + per <= n * per) by (nonlinear_arith)
        requires
            0 <= e < n,
    ;
    if m > 0 {
        lemma_record(raw, per, m, if e < m { e } else { 0 }, j);
    } else {
        assert(0 * per == 0 && 0 * (per + 1) == 0);
    }
    if e < m {
        assert(e * per + per <= m * per) by (nonlinear_arith)
            requires
                0 <= e < m,
        ;
    } else {
        assert(e * per == m * per && e * (per + 1) == at);
    }
}

/// The integer in word `k` behind the node coordinates of the base file.
pub open spec fn mesh_word(d: D3plot, k: int) -> int {
    let ws = d.ctrl.wordsize;
    int_at(d.files@[0]@, d.ctrl.coord_off + (3 * d.ctrl.numnp + k) * ws, ws as nat)
}

proof fn lemma_mesh_words(d: D3plot, k: nat, n: nat, i: int)
    requires
        d.wf(),
        0 <= i < n,
        d.ctrl.coord_off + (3 * d.ctrl.numnp + k + n) * d.ctrl.wordsize <= d.files@[0]@.len(),
    ensures
        ({
            let ws = d.ctrl@.wordsize;
            let r = ints_at(
                d.files@[0]@,
                (d.solids_off() + k * ws) as int,
                n,
                ws,
            );
            r.len() == n && r[i] == mesh_word(d, k + i) as i64
        }),
{
    let ws = d.ctrl@.wordsize as int;
    let m = 3 * d.ctrl.numnp as int;
    assert((m + k + n) * ws == m * ws + k * ws + n * ws && (m + k + i) * ws == m * ws + k * ws + i
        * ws) by (nonlinear_arith);
}

/// A solid has nine words behind the coordinates: its eight nodes and its part.
pub proof fn law_solid_records(d: D3plot, r: (Vec<i64>, Vec<i64>), e: int, j: int)
    requires
        d.wf(),
        d.is_solid_connectivity(r),
        d.ctrl.geom_bytes <= d.files@[0]@.len(),
        0 <= e < d.ctrl.nel8,
        0 <= j < 8,
    ensures
        r.0@.len() == 8 * d.ctrl.nel8,
        r.1@.len() == d.ctrl.nel8,
        r.0@[8 * e + j] == mesh_word(d, 9 * e + j) as i64,
        r.1@[e] == mesh_word(d, 9 * e + 8) as i64,
{
    let v = d.ctrl@;
    lemma_state_terms(v);
    let n = v.nel8;
    let ws = v.wordsize;
    lemma_room(d, 0, 9 * n);
    let raw = d.raw_records(d.solids_off(), n, 8);
    assert(n * 9 == 9 * n) by (nonlinear_arith);
    lemma_mesh_words(d, 0, n * 9, e * 9 + j);
    lemma_mesh_words(d, 0, n * 9, e * 9 + 8);
    assert(0 * ws == 0);
    lemma_record(raw, 8, n, e, j);
}

/// A shell has five words behind those of solids, thick shells and beams: its four nodes
/// and its part.
pub proof fn law_shell_records(d: D3plot, r: (Vec<i64>, Vec<i64>), e: int, j: int)
    requires
        d.wf(),
        d.is_shell_connectivity(r),
        d.ctrl.geom_bytes <= d.files@[0]@.len(),
        0 <= e < d.ctrl.nel4,
        0 <= j < 4,
    ensures
        ({
            let at = 9 * d.ctrl.nel8 + 9 * d.ctrl.nelth + 6 * d.ctrl.nel2;
            &&& r.0@.len() == 4 * d.ctrl.nel4
            &&& r.1@.len() == d.ctrl.nel4
            &&& r.0@[4 * e + j] == mesh_word(d, at + 5 * e + j) as i64
            &&& r.1@[e] == mesh_word(d, at + 5 * e + 4) as i64
        }),
{
    let v = d.ctrl@;
    lemma_state_terms(v);
    let n = v.nel4;
    let at = 9 * v.nel8 + 9 * v.nelth + 6 * v.nel2;
    lemma_room(d, at, 5 * n);
    let raw = d.raw_records(d.shells_off(), n, 4);
    assert(n * 5 == 5 * n) by (nonlinear_arith);
    lemma_mesh_words(d, at, n * 5, e * 5 + j);
    lemma_mesh_words(d, at, n * 5, e * 5 + 4);
    lemma_record(raw, 4, n, e, j);
}

pub proof fn lemma_solid_part(d: D3plot, e: int)
    requires
        d.wf(),
        d.ctrl.geom_bytes <= d.files@[0]@.len(),
        0 <= e < d.ctrl.nel8,
    ensures
        d.block_parts(StateBlock::Solid).len() == d.ctrl.nel8,
        d.block_parts(StateBlock::Solid)[e] == mesh_word(d, 9 * e + 8) as i64,
{
    let v = d.ctrl@;
    lemma_state_terms(v);
    let n = v.nel8;
    lemma_room(d, 0, 9 * n);
    assert(n * 9 == 9 * n) by (nonlinear_arith);
    lemma_mesh_words(d, 0, n * 9, e * 9 + 8);
    assert(0 * v.wordsize == 0);
}

pub proof fn lemma_shell_part(d: D3plot, e: int)
    requires
        d.wf(),
        d.ctrl.geom_bytes <= d.files@[0]@.len(),
        0 <= e < d.ctrl.nel4,
    ensures
        d.block_parts(StateBlock::Shell).len() == d.ctrl.nel4,
        d.block_parts(StateBlock::Shell)[e] == mesh_word(
            d,
            9 * d.ctrl.nel8 + 9 * d.ctrl.nelth + 6 * d.ctrl.nel2 + 5 * e + 4,
        ) as i64,
{
    let v = d.ctrl@;
    lemma_state_terms(v);
    let n = v.nel4;
    let at = 9 * v.nel8 + 9 * v.nelth + 6 * v.nel2;
    lemma_room(d, at, 5 * n);
    assert(n * 5 == 5 * n) by (nonlinear_arith);
    lemma_mesh_words(d, at, n * 5, e * 5 + 4);
}

proof fn lemma_room(d: D3plot, k: nat, n: nat)
    requires
        d.wf(),
        d.ctrl.geom_bytes <= d.files@[0]@.len(),
        k + n <= d.ctrl@.connectivity_words() + d.ctrl@.narbs,
    ensures
        d.ctrl.coord_off + (3 * d.ctrl.numnp + k + n) * d.ctrl.wordsize <= d.files@[0]@.len(),
{
    let v = d.ctrl@;
    let ws = v.wordsize as int;
    let m = 3 * v.numnp;
    let a = k + n;
    let c = (v.connectivity_words() + v.narbs) as int;
    assert((m + a) * ws <= (m + c) * ws) by (nonlinear_arith)
        requires
            a <= c,
            ws >= 0,
    ;
}

/// The user numbers of the nodes, of solids, beams, shells and thick shells and of the
/// parts stand one behind the other, 16 words into their section where its first word is
/// negative and 10 words otherwise. Without the section everything counts from one.
pub proof fn law_user_numbers(d: D3plot, i: int)
    requires
        d.wf(),
    ensures
        ({
            let c = d.ctrl;
            let at = 9 * c.nel8 + 9 * c.nelth + 6 * c.nel2 + 5 * c.nel4;
            let h = if mesh_word(d, at) < 0 {
                at + 16
            } else {
                at + 10
            };
            let solids = c.numnp as int;
            let shells = solids + c.nel8 + c.nel2;
            let parts = shells + c.nel4 + c.nelth;
            &&& c.narbs == 0 ==> {
                &&& counts_up(d.node_numbers(), c.numnp)
                &&& counts_up(d.solid_numbers(), c.nel8)
                &&& counts_up(d.shell_numbers(), c.nel4)
                &&& counts_up(d.part_numbers(), c.nmmat)
            }
            &&& c.narbs > 0 ==> {
                &&& numbers_from(d, d.node_numbers(), h, c.numnp, i)
                &&& numbers_from(d, d.solid_numbers(), h + solids, c.nel8, i)
                &&& numbers_from(d, d.shell_numbers(), h + shells, c.nel4, i)
                &&& numbers_from(d, d.part_numbers(), h + parts, c.nmmat, i)
            }
        }),
{
    let c = d.ctrl;
    let v = d.ctrl@;
    lemma_state_terms(v);
    let at = v.connectivity_words();
    let ws = v.wordsize as int;
    let m = 3 * v.numnp;
    assert((m + at) * ws == m * ws + at * ws) by (nonlinear_arith);
    let h: nat = if mesh_word(d, at as int) < 0 {
        at + 16
    } else {
        at + 10
    };
    assert(mesh_word(d, at as int) < 0 <==> d.numbering_header() == 16);
    if c.narbs > 0 {
        lemma_numbers_from(d, h, 0, c.numnp, i);
        lemma_numbers_from(d, h, c.numnp as nat, c.nel8, i);
        lemma_numbers_from(d, h, (c.numnp + c.nel8 + c.nel2) as nat, c.nel4, i);
        lemma_numbers_from(
            d,
            h,
            (c.numnp + c.nel8 + c.nel2 + c.nel4 + c.nelth) as nat,
            c.nmmat,
            i,
        );
    }
}

/// The numbers from one to `n`.
pub open spec fn counts_up(r: Seq<i64>, n: usize) -> bool {
    r.len() == n && forall|i: int| 0 <= i < n ==> #[trigger] r[i] == (i + 1) as i64
}

/// Number `i` of at most `n` is in word `k + i` behind the coordinates; all are there
/// when the file has them.
pub open spec fn numbers_from(d: D3plot, r: Seq<i64>, k: int, n: usize, i: int) -> bool {
    &&& r.len() <= n
    &&& d.ctrl.coord_off + (3 * d.ctrl.numnp + k + n) * d.ctrl.wordsize <= d.files@[0]@.len()
        ==> r.len() == n
    &&& 0 <= i < r.len() ==> r[i] == mesh_word(d, k + i) as i64
}

proof fn lemma_numbers_from(d: D3plot, h: nat, skip: nat, n: usize, i: int)
    requires
        d.wf(),
        d.ctrl.narbs > 0,
        h == d.ctrl@.connectivity_words() + d.numbering_header(),
    ensures
        numbers_from(d, d.user_numbers(skip, n as nat), (h + skip) as int, n, i),
{
    let v = d.ctrl@;
    let ws = v.wordsize as int;
    let m = 3 * v.numnp;
    let k = (h + skip) as int;
    let q = d.numbering_header() + skip;
    let c = v.connectivity_words();
    assert((m + k + n) * ws == m * ws + c * ws + q * ws + n * ws && (m + k + i) * ws == m * ws + c
        * ws + q * ws + i * ws) by (nonlinear_arith)
        requires
            k == c + q,
    ;
    let off = d.numbering_off() + q * ws;
    let len = d.files@[0]@.len();
    if n > 0 && off + n * ws > len && off < len {
        assert((len - off) / ws <= n) by (nonlinear_arith)
            requires
                off + n * ws > len,
                ws > 0,
        ;
        assert((len - off) / ws >= 0) by (nonlinear_arith)
            requires
                off < len,
                ws > 0,
        ;
    }
}

proof fn lemma_entries(b: Seq<u8>, pos: int, n: nat, ws: nat, i: int)
    requires
        0 <= i < n,
        0 <= pos,
        pos + n * (ws + 72) <= b.len(),
    ensures
        ({
            let at = pos + i * (ws + 72);
            let e = entries_at(b, pos, n, ws);
            &&& e.len() == n
            &&& e[i].0 == int_at(b, at, ws) as i64
            &&& e[i].1 == trimmed(text_of(b.subrange(at + ws, at + ws + 72)))
        }),
    decreases n,
{
    reveal_with_fuel(entries_at, 2);
    let k = (ws + 72) as int;
    let m = (n - 1) as nat;
    assert(n * k == m * k + k && i * k == (i - 1) * k + k && 0 <= m * k) by (nonlinear_arith)
        requires
            n == m + 1,
            k >= 0,
    ;
    assert(0 * k == 0);
    if m > 0 {
        lemma_entries(b, pos + ws + 72, m, ws, if i > 0 { i - 1 } else { 0 });
    }
}

/// A table of part titles starts with the word 90001 and the number of parts, and has for
/// each part its number and 72 bytes of text. Titles of the run (90000), of contacts
/// (90002, 90020) and keyword lines of 80 bytes (90100) are passed over; any other word
/// ends the section.
pub proof fn law_part_titles(b: Seq<u8>, pos: int, ws: nat, i: int)
    requires
        0 <= pos <= b.len(),
        ws == 4 || ws == 8,
    ensures
        ({
            let t = int_at(b, pos, ws);
            let n = at_least_zero(int_at(b, pos + ws, ws));
            let end = pos + 2 * ws + n * (ws + 72);
            let at = pos + 2 * ws + i * (ws + 72);
            let r = titles_from(b, pos, ws);
            let rest = titles_from(b, end, ws);
            &&& t == 90001 && end <= b.len() && 0 <= i < n ==> {
                &&& r.len() == n + rest.len()
                &&& r[i].0 == int_at(b, at, ws) as i64
                &&& r[i].1 == trimmed(text_of(b.subrange(at + ws, at + ws + 72)))
                &&& r.skip(n) == rest
            }
            &&& t == 90002 || t == 90020 ==> r == rest
            &&& t == 90000 ==> r == titles_from(b, pos + ws + 72, ws)
            &&& t == 90100 ==> r == titles_from(b, pos + 2 * ws + n * 80, ws)
            &&& t < 90000 || t > 90100 || 90002 < t < 90020 || 90020 < t < 90100 ==> r.len() == 0
        }),
{
    let n = at_least_zero(int_at(b, pos + ws, ws));
    let end = pos + 2 * ws + n * (ws + 72);
    if int_at(b, pos, ws) == 90001 && end <= b.len() && 0 <= i < n {
        lemma_entries(b, pos + 2 * ws, n as nat, ws, i);
        let rest = titles_from(b, end, ws);
        assert(titles_from(b, pos, ws) == entries_at(b, pos + 2 * ws, n as nat, ws) + rest);
        assert(titles_from(b, pos, ws).skip(n) =~= rest);
    }
}

} // verus!
