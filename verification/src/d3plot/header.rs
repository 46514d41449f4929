//! Reading the control block: word size detection, the header words, and the
//! walk over the geometry section that follows them.

use crate::d3plot::control::{
    Control, ControlView, CONTROL_WORDS, EXTRA, FILETYPE, IA, IALEMAT, IDTDT, IOSHL1, IOSHL2,
    IOSHL3, IOSHL4, IT, IU, IV, MAXINT, MDLOPT_ELEMENT_DELETION, NARBS, NDIM, NEIPS, NEL2, NEL4,
    NEL48, NEL8, NELTH, NFORCE, NGAPC, NGLBV, NMMAT, NMSPH, NPEFG, NPRESU, NSHEAR, NT3D, NUMNP,
    NV1D, NV2D, NV3D, NV3DT, NWEAR,
};
use crate::d3plot::words::{int_at, is_word_size, read_int_at, try_read_int};
use crate::d3plot::D3plotError;
use vstd::prelude::*;

verus! {

/// `v`, with 0 for a negative number.
pub open spec fn count(v: int) -> nat {
    if v > 0 {
        v as nat
    } else {
        0
    }
}

/// The integer in word `k`; 0 past the end.
pub open spec fn word_at(b: Seq<u8>, ws: nat, k: int) -> int {
    int_at(b, k * ws, ws)
}

/// The word size of a database: a d3plot has no explicit precision flag, so the
/// size is the one under which NDIM is a valid flag value, single precision
/// first. `None` for no database.
pub open spec fn word_size_of(b: Seq<u8>) -> Option<nat> {
    if b.len() < 64 {
        None
    } else if 2 <= word_at(b, 4, NDIM as int) <= 9 {
        Some(4)
    } else if b.len() >= 128 && 2 <= word_at(b, 8, NDIM as int) <= 9 {
        Some(8)
    } else {
        None
    }
}

/// The bytes reach to the last header word: the base block, and the solid
/// thermal count when there are extra words for it.
pub open spec fn header_complete(b: Seq<u8>, ws: nat) -> bool {
    &&& 64 * ws <= b.len()
    &&& word_at(b, ws, EXTRA as int) > 1 ==> 66 * ws <= b.len()
}

/// Words of the global variables after the scalars and the part block.
pub open spec fn wall_tail(nglbv: nat, nmmat: nat) -> nat {
    if nglbv >= 6 + 7 * nmmat {
        (nglbv - (6 + 7 * nmmat)) as nat
    } else {
        0
    }
}

/// Words per rigid wall: four when the tail divides by four, else the force alone.
pub open spec fn wall_vars(tail: nat) -> nat {
    if tail == 0 {
        0
    } else if tail % 4 == 0 {
        4
    } else {
        1
    }
}

/// The header words, before the geometry section is looked at.
pub open spec fn header_of(b: Seq<u8>, ws: nat) -> ControlView {
    let w = |k: usize| word_at(b, ws, k as int);
    let extra = count(w(EXTRA));
    let ndim = w(NDIM);
    let tail = wall_tail(count(w(NGLBV)), count(w(NMMAT)));
    ControlView {
        wordsize: ws,
        ndim,
        numnp: w(NUMNP),
        nglbv: count(w(NGLBV)),
        it: w(IT),
        iu: w(IU),
        iv: w(IV),
        ia: w(IA),
        nel8: count(w(NEL8)),
        nv3d: count(w(NV3D)),
        nelth: count(w(NELTH)),
        nv3dt: count(w(NV3DT)),
        nel2: count(w(NEL2)),
        nv1d: count(w(NV1D)),
        nel4: count(w(NEL4)),
        nv2d: if w(NV2D) < 0 {
            count(-w(NV2D))
        } else {
            count(w(NV2D))
        },
        narbs: count(w(NARBS)),
        maxint: w(MAXINT),
        neips: count(w(NEIPS)),
        ioshl1: w(IOSHL1),
        ioshl2: w(IOSHL2),
        ioshl3: w(IOSHL3),
        ioshl4: w(IOSHL4),
        idtdt: w(IDTDT),
        nt3d: if extra > 1 {
            count(w(NT3D))
        } else {
            0
        },
        n_rigid_shells: if ndim == 5 || ndim == 7 {
            count(word_at(b, ws, (64 + extra) as int))
        } else {
            0
        },
        ialemat: count(w(IALEMAT)),
        npefg: w(NPEFG),
        nel48: count(w(NEL48)),
        nmsph: count(w(NMSPH)),
        geom_bytes: 0,
        coord_off: 0,
        n_sph_vars: 0,
        n_airbags: 0,
        n_particles: 0,
        n_airbag_state_vars: 0,
        n_particle_state_vars: 0,
        n_geom_vars: 0,
        n_rigids: 0,
        reduced_rigid: false,
        n_roads: 0,
        nmmat: count(w(NMMAT)),
        n_rigid_walls: if tail == 0 {
            0
        } else {
            tail / wall_vars(tail)
        },
        n_rigid_wall_vars: wall_vars(tail),
        extra,
        filetype: w(FILETYPE),
        fsifor: w(NV2D) < 0,
        nwear: count(w(NWEAR)),
        npresu: count(w(NPRESU)),
        nshear: count(w(NSHEAR)),
        nforce: count(w(NFORCE)),
        ngapc: count(w(NGAPC)),
    }
}

/// First word of the SPH flags: after the header, the material-type section and
/// the ALE material list.
pub open spec fn sph_flags(h: ControlView) -> nat {
    64 + h.extra + (if h.mattyp() {
        2 + h.nmmat
    } else {
        0
    }) + h.ialemat
}

/// Variables per SPH node and state, from the flags at word `p`.
pub open spec fn sph_vars(b: Seq<u8>, ws: nat, p: int) -> nat {
    let f = |k: int| word_at(b, ws, p + k);
    let ninth = if f(8) < 0 {
        -f(8)
    } else {
        f(8)
    };
    count(f(1) + f(2) + f(3) + f(4) + f(5) + f(6) + f(7) + ninth + f(9)) + (if f(0) == 10 {
        0
    } else {
        count(f(10))
    }) + 1
}

/// Airbag and particle data is present.
pub open spec fn has_airbags(h: ControlView) -> bool {
    0 < h.npefg <= 10_000_000
}

/// First word of the airbag flags, after the SPH flags.
pub open spec fn airbag_flags(b: Seq<u8>, h: ControlView) -> nat {
    sph_flags(h) + (if h.nmsph > 0 {
        count(word_at(b, h.wordsize, sph_flags(h) as int))
    } else {
        0
    })
}

/// Fills in what the airbag flags say.
pub open spec fn with_airbags(b: Seq<u8>, h: ControlView) -> ControlView {
    if has_airbags(h) {
        let p = airbag_flags(b, h) as int;
        ControlView {
            n_airbags: (h.npefg % 1000) as nat,
            n_geom_vars: count(word_at(b, h.wordsize, p)),
            n_particle_state_vars: count(word_at(b, h.wordsize, p + 1)),
            n_particles: count(word_at(b, h.wordsize, p + 2)),
            n_airbag_state_vars: count(word_at(b, h.wordsize, p + 3)),
            ..h
        }
    } else {
        h
    }
}

/// First word of the node coordinates. `a` is `h` with the airbag flags.
pub open spec fn coords(b: Seq<u8>, h: ControlView, a: ControlView) -> nat {
    airbag_flags(b, h) + (if has_airbags(h) {
        4 + (if h.npefg / 1000 == 4 {
            1nat
        } else {
            0nat
        }) + 9 * (a.n_geom_vars + a.n_particle_state_vars + a.n_airbag_state_vars)
    } else {
        0
    })
}

/// First word after the coordinates, the connectivity and the numbering section.
pub open spec fn numbered(h: ControlView, coords: nat) -> nat {
    coords + 3 * (h.numnp as nat) + h.connectivity_words() + h.narbs
}

pub open spec fn has_rigid_body(h: ControlView) -> bool {
    h.ndim == 8 || h.ndim == 9
}

pub open spec fn has_rigid_road(h: ControlView) -> bool {
    h.ndim == 6 || h.ndim == 9
}

/// First word after the descriptions of `n` rigid bodies from word `p` on. Each
/// is a material, a node count, that many nodes, an active-node count and that
/// many nodes.
pub open spec fn rigid_end(b: Seq<u8>, ws: nat, p: nat, n: nat) -> nat
    decreases n,
{
    if n == 0 {
        p
    } else {
        let q = p + 2 + count(word_at(b, ws, p as int + 1));
        rigid_end(b, ws, q + 1 + count(word_at(b, ws, q as int)), (n - 1) as nat)
    }
}

/// First word after `n` road surfaces from word `p` on. Each is an id, a segment
/// count and four words per segment.
pub open spec fn road_end(b: Seq<u8>, ws: nat, p: nat, n: nat) -> nat
    decreases n,
{
    if n == 0 {
        p
    } else {
        road_end(b, ws, p + 2 + 4 * count(word_at(b, ws, p as int + 1)), (n - 1) as nat)
    }
}

/// First word after the rigid body section at `p`.
pub open spec fn after_bodies(b: Seq<u8>, h: ControlView, p: nat) -> nat {
    if has_rigid_body(h) {
        rigid_end(b, h.wordsize, p + 1, count(word_at(b, h.wordsize, p as int)))
    } else {
        p
    }
}

/// First word after the rigid road section at `p`.
pub open spec fn after_roads(b: Seq<u8>, h: ControlView, p: nat) -> nat {
    if has_rigid_road(h) {
        road_end(
            b,
            h.wordsize,
            p + 4 + 4 * count(word_at(b, h.wordsize, p as int)),
            count(word_at(b, h.wordsize, p as int + 2)),
        )
    } else {
        p
    }
}

/// The control block with all that the geometry section adds to the header.
///
/// The section holds, in this order: material types, the ALE material list, SPH
/// flags, airbag flags, node coordinates, connectivity, the numbering section,
/// rigid bodies, SPH nodes, airbag geometry, rigid roads and the extra
/// connectivity of 8-node shells. Parts whose flags are off take no space.
pub open spec fn walked(b: Seq<u8>, h: ControlView) -> ControlView {
    let ws = h.wordsize;
    let a = with_airbags(b, h);
    let c = coords(b, h, a);
    let bodies = numbered(h, c);
    let sph = after_bodies(b, h, bodies);
    let roads = sph + 2 * h.nmsph + a.n_airbags * a.n_geom_vars;
    let end = after_roads(b, h, roads) + 5 * h.nel48;
    ControlView {
        n_sph_vars: if h.nmsph > 0 {
            sph_vars(b, ws, sph_flags(h) as int)
        } else {
            h.n_sph_vars
        },
        coord_off: c * ws,
        n_rigids: if has_rigid_body(h) {
            count(word_at(b, ws, bodies as int))
        } else {
            h.n_rigids
        },
        reduced_rigid: h.ndim == 9,
        n_roads: if has_rigid_road(h) {
            count(word_at(b, ws, roads as int + 2))
        } else {
            h.n_roads
        },
        geom_bytes: end * ws,
        ..a
    }
}

/// The control block that the bytes of a database state, or `None` when they are
/// no database.
#[verifier::opaque]
pub open spec fn control_of(b: Seq<u8>) -> Option<ControlView> {
    match word_size_of(b) {
        None => None,
        Some(ws) => if header_complete(b, ws) {
            Some(walked(b, header_of(b, ws)))
        } else {
            None
        },
    }
}

pub proof fn lemma_rigid_end_grows(b: Seq<u8>, ws: nat, p: nat, n: nat)
    ensures
        rigid_end(b, ws, p, n) >= p,
    decreases n,
{
    if n > 0 {
        let q = p + 2 + count(word_at(b, ws, p as int + 1));
        lemma_rigid_end_grows(b, ws, q + 1 + count(word_at(b, ws, q as int)), (n - 1) as nat);
    }
}

pub proof fn lemma_road_end_grows(b: Seq<u8>, ws: nat, p: nat, n: nat)
    ensures
        road_end(b, ws, p, n) >= p,
    decreases n,
{
    if n > 0 {
        lemma_road_end_grows(
            b,
            ws,
            p + 2 + 4 * count(word_at(b, ws, p as int + 1)),
            (n - 1) as nat,
        );
    }
}

/// The largest number of words whose bytes can be counted.
pub open spec fn word_limit(ws: nat) -> nat {
    usize::MAX as nat / ws
}

pub proof fn lemma_word_limit(n: nat, ws: nat)
    requires
        is_word_size(ws as int),
    ensures
        n <= word_limit(ws) <==> n * ws <= usize::MAX,
        word_limit(ws) <= usize::MAX / 4,
{
    if ws == 4 {
        assert(n * ws == 4 * n);
    } else {
        assert(n * ws == 8 * n);
    }
}

/// `acc + a * b`, when it is no more than `limit`.
fn add_product(acc: usize, a: usize, b: usize, limit: usize) -> (r: Option<usize>)
    requires
        acc <= limit,
    ensures
        r is Some <==> acc + a * b <= limit,
        r matches Some(v) ==> v == acc + a * b,
{
    assert(a * b <= 0xFFFF_FFFF_FFFF_FFFF * 0xFFFF_FFFF_FFFF_FFFF) by (nonlinear_arith)
        requires
            a <= 0xFFFF_FFFF_FFFF_FFFF,
            b <= 0xFFFF_FFFF_FFFF_FFFF,
    ;
    let total: u128 = acc as u128 + a as u128 * b as u128;
    if total <= limit as u128 {
        Some(total as usize)
    } else {
        None
    }
}

/// `v` as a count, when it is a machine number.
fn to_count(v: i64) -> (r: Option<usize>)
    ensures
        r is Some <==> count(v as int) <= usize::MAX,
        r matches Some(c) ==> c == count(v as int),
{
    if v <= 0 {
        Some(0)
    } else if v as u64 <= usize::MAX as u64 {
        Some(v as usize)
    } else {
        None
    }
}

fn read_word(b: &[u8], ws: u64, k: usize) -> (r: i64)
    requires
        is_word_size(ws as int),
    ensures
        r == word_at(b@, ws as nat, k as int),
{
    let len: usize = b.len();
    let words: usize = if ws == 4 { len / 4 } else { len / 8 };
    if k >= words {
        assert(k * ws + ws > len) by {
            if ws == 4 {
                assert(4 * k + 4 > len);
            } else {
                assert(8 * k + 8 > len);
            }
        }
        0
    } else {
        assert(k * ws <= len) by {
            if ws == 4 {
                assert(4 * k <= len);
            } else {
                assert(8 * k <= len);
            }
        }
        read_int_at(b, k * ws as usize, ws)
    }
}

fn read_count(b: &[u8], ws: u64, k: usize) -> (r: Option<usize>)
    requires
        is_word_size(ws as int),
    ensures
        r is Some <==> count(word_at(b@, ws as nat, k as int)) <= usize::MAX,
        r matches Some(c) ==> c == count(word_at(b@, ws as nat, k as int)),
{
    to_count(read_word(b, ws, k))
}

/// What the geometry section adds is made of machine numbers, and its end can be
/// addressed.
pub open spec fn geometry_fits(v: ControlView) -> bool {
    &&& v.n_sph_vars <= usize::MAX
    &&& v.n_particles <= usize::MAX
    &&& v.n_airbag_state_vars <= usize::MAX
    &&& v.n_particle_state_vars <= usize::MAX
    &&& v.n_geom_vars <= usize::MAX
    &&& v.n_rigids <= usize::MAX
    &&& v.n_roads <= usize::MAX
    &&& v.geom_bytes <= usize::MAX
}

/// The end of the geometry in words, and the positions on the way to it, in
/// growing order.
pub proof fn lemma_walk_order(b: Seq<u8>, h: ControlView)
    requires
        is_word_size(h.wordsize as int),
        h.numnp >= 0,
    ensures
        ({
            let v = walked(b, h);
            let a = with_airbags(b, h);
            let c = coords(b, h, a);
            let n = numbered(h, c);
            let s = after_bodies(b, h, n);
            let r = s + 2 * h.nmsph + a.n_airbags * a.n_geom_vars;
            let e = after_roads(b, h, r) + 5 * h.nel48;
            &&& sph_flags(h) <= airbag_flags(b, h) <= c <= n <= s <= r <= after_roads(b, h, r) <= e
            &&& v.geom_bytes == e * h.wordsize
            &&& v.coord_off == c * h.wordsize
            &&& (e <= word_limit(h.wordsize) <==> v.geom_bytes <= usize::MAX)
            &&& v.coord_off + (3 * h.numnp + h.connectivity_words() + h.narbs) * h.wordsize
                <= v.geom_bytes
        }),
{
    let ws = h.wordsize;
    let a = with_airbags(b, h);
    let c = coords(b, h, a);
    let n = numbered(h, c);
    if has_rigid_body(h) {
        lemma_rigid_end_grows(b, ws, n + 1, count(word_at(b, ws, n as int)));
    }
    let s = after_bodies(b, h, n);
    let r = s + 2 * h.nmsph + a.n_airbags * a.n_geom_vars;
    if has_rigid_road(h) {
        lemma_road_end_grows(
            b,
            ws,
            r + 4 + 4 * count(word_at(b, ws, r as int)),
            count(word_at(b, ws, r as int + 2)),
        );
    }
    let e = after_roads(b, h, r) + 5 * h.nel48;
    lemma_word_limit(e, ws);
    let m = 3 * h.numnp + h.connectivity_words() + h.narbs;
    assert(c * ws + m * ws <= e * ws) by (nonlinear_arith)
        requires
            c + m <= e,
    ;
}

/// The end of `n` rigid body descriptions from word `start` on, when it is no
/// more than `limit`.
fn skip_rigid_bodies(bytes: &[u8], ws: u64, start: usize, n: usize, limit: usize) -> (r: Option<
    usize,
>)
    requires
        is_word_size(ws as int),
        start <= limit,
        limit == word_limit(ws as nat),
    ensures
        r is Some <==> rigid_end(bytes@, ws as nat, start as nat, n as nat) <= limit,
        r matches Some(e) ==> e == rigid_end(bytes@, ws as nat, start as nat, n as nat),
{
    let ghost b = bytes@;
    let ghost w = ws as nat;
    proof {
        lemma_word_limit(0, w);
    }
    let mut pos: usize = start;
    let mut i: usize = 0;
    while i < n
        invariant
            is_word_size(ws as int),
            i <= n,
            pos <= limit,
            limit <= usize::MAX / 4,
            limit == word_limit(ws as nat),
            b == bytes@,
            w == ws as nat,
            rigid_end(b, w, pos as nat, (n - i) as nat) == rigid_end(b, w, start as nat, n as nat),
        decreases n - i,
    {
        let ghost q = pos as nat + 2 + count(word_at(b, w, pos as int + 1));
        let ghost next = q + 1 + count(word_at(b, w, q as int));
        proof {
            lemma_rigid_end_grows(b, w, next, (n - i - 1) as nat);
        }
        let nodes: usize = match read_count(bytes, ws, pos + 1) {
            Some(c) => c,
            None => return None,
        };
        let at: usize = match add_product(pos, 1, 2, limit) {
            Some(p) => p,
            None => return None,
        };
        let at: usize = match add_product(at, nodes, 1, limit) {
            Some(p) => p,
            None => return None,
        };
        let active: usize = match read_count(bytes, ws, at) {
            Some(c) => c,
            None => return None,
        };
        let at: usize = match add_product(at, 1, 1, limit) {
            Some(p) => p,
            None => return None,
        };
        pos = match add_product(at, active, 1, limit) {
            Some(p) => p,
            None => return None,
        };
        i = i + 1;
    }
    Some(pos)
}

/// The end of `n` road surfaces from word `start` on, when it is no more than
/// `limit`.
fn skip_roads(bytes: &[u8], ws: u64, start: usize, n: usize, limit: usize) -> (r: Option<usize>)
    requires
        is_word_size(ws as int),
        start <= limit,
        limit == word_limit(ws as nat),
    ensures
        r is Some <==> road_end(bytes@, ws as nat, start as nat, n as nat) <= limit,
        r matches Some(e) ==> e == road_end(bytes@, ws as nat, start as nat, n as nat),
{
    let ghost b = bytes@;
    let ghost w = ws as nat;
    proof {
        lemma_word_limit(0, w);
    }
    let mut pos: usize = start;
    let mut i: usize = 0;
    while i < n
        invariant
            is_word_size(ws as int),
            i <= n,
            pos <= limit,
            limit <= usize::MAX / 4,
            limit == word_limit(ws as nat),
            b == bytes@,
            w == ws as nat,
            road_end(b, w, pos as nat, (n - i) as nat) == road_end(b, w, start as nat, n as nat),
        decreases n - i,
    {
        proof {
            lemma_road_end_grows(
                b,
                w,
                pos as nat + 2 + 4 * count(word_at(b, w, pos as int + 1)),
                (n - i - 1) as nat,
            );
        }
        let segments: usize = match read_count(bytes, ws, pos + 1) {
            Some(c) => c,
            None => return None,
        };
        let at: usize = match add_product(pos, 1, 2, limit) {
            Some(p) => p,
            None => return None,
        };
        pos = match add_product(at, segments, 4, limit) {
            Some(p) => p,
            None => return None,
        };
        i = i + 1;
    }
    Some(pos)
}

/// Variables per SPH node, from the flags at word `p`.
fn read_sph_vars(bytes: &[u8], ws: u64, p: usize) -> (r: Option<usize>)
    requires
        is_word_size(ws as int),
        p <= usize::MAX - 16,
    ensures
        r is Some <==> sph_vars(bytes@, ws as nat, p as int) <= usize::MAX,
        r matches Some(n) ==> n == sph_vars(bytes@, ws as nat, p as int),
{
    let f8: i128 = read_word(bytes, ws, p + 8) as i128;
    let ninth: i128 = if f8 < 0 { -f8 } else { f8 };
    let sum: i128 = read_word(bytes, ws, p + 1) as i128 + read_word(bytes, ws, p + 2) as i128
        + read_word(bytes, ws, p + 3) as i128 + read_word(bytes, ws, p + 4) as i128 + read_word(
        bytes,
        ws,
        p + 5,
    ) as i128 + read_word(bytes, ws, p + 6) as i128 + read_word(bytes, ws, p + 7) as i128 + ninth
        + read_word(bytes, ws, p + 9) as i128;
    let base: i128 = if sum > 0 { sum } else { 0 };
    let history: i64 = if read_word(bytes, ws, p) == 10 {
        0
    } else {
        let h: i64 = read_word(bytes, ws, p + 10);
        if h > 0 { h } else { 0 }
    };
    let total: i128 = base + history as i128 + 1;
    if total <= usize::MAX as i128 {
        Some(total as usize)
    } else {
        None
    }
}

/// The first word of the SPH flags.
fn find_sph_flags(c: &Control, limit: usize) -> (r: Option<usize>)
    requires
        64 <= limit,
    ensures
        r is Some <==> sph_flags(c@) <= limit,
        r matches Some(p) ==> p == sph_flags(c@),
{
    let mut pos: usize = CONTROL_WORDS;
    pos = match add_product(pos, c.extra, 1, limit) {
        Some(p) => p,
        None => return None,
    };
    if c.mattyp() {
        pos = match add_product(pos, 2, 1, limit) {
            Some(p) => p,
            None => return None,
        };
        pos = match add_product(pos, c.nmmat, 1, limit) {
            Some(p) => p,
            None => return None,
        };
    }
    add_product(pos, c.ialemat, 1, limit)
}

/// The first word of the airbag flags, from that of the SPH flags.
fn find_airbag_flags(c: &Control, bytes: &[u8], sph: usize, limit: usize) -> (r: Option<usize>)
    requires
        is_word_size(c.wordsize as int),
        sph == sph_flags(c@),
        sph <= limit,
    ensures
        r is Some <==> airbag_flags(bytes@, c@) <= limit,
        r matches Some(p) ==> p == airbag_flags(bytes@, c@),
{
    if c.nmsph > 0 {
        match read_count(bytes, c.wordsize, sph) {
            Some(n) => add_product(sph, n, 1, limit),
            None => None,
        }
    } else {
        Some(sph)
    }
}

/// The control block with what the airbag flags at word `p` say.
fn read_airbags(c: &Control, bytes: &[u8], p: usize) -> (r: Option<Control>)
    requires
        is_word_size(c.wordsize as int),
        p == airbag_flags(bytes@, c@),
        p <= usize::MAX - 4,
    ensures
        r matches Some(a) ==> a@ == with_airbags(bytes@, c@),
        r is None ==> ({
            let a = with_airbags(bytes@, c@);
            ||| a.n_geom_vars > usize::MAX
            ||| a.n_particle_state_vars > usize::MAX
            ||| a.n_particles > usize::MAX
            ||| a.n_airbag_state_vars > usize::MAX
        }),
{
    if !(c.npefg > 0 && c.npefg <= 10_000_000) {
        return Some(*c);
    }
    let ws: u64 = c.wordsize;
    match (
        read_count(bytes, ws, p),
        read_count(bytes, ws, p + 1),
        read_count(bytes, ws, p + 2),
        read_count(bytes, ws, p + 3),
    ) {
        (Some(geom), Some(particle_state), Some(particles), Some(airbag_state)) => {
            let a: Control = Control {
                n_airbags: (c.npefg % 1000) as usize,
                n_geom_vars: geom,
                n_particle_state_vars: particle_state,
                n_particles: particles,
                n_airbag_state_vars: airbag_state,
                ..*c
            };
            Some(a)
        },
        _ => None,
    }
}

/// The first word of the node coordinates. `a` is `c` with the airbag flags.
fn find_coords(c: &Control, a: &Control, bytes: &[u8], p: usize, limit: usize) -> (r: Option<usize>)
    requires
        p == airbag_flags(bytes@, c@),
        p <= limit,
        a.npefg == c.npefg,
    ensures
        r is Some <==> coords(bytes@, c@, a@) <= limit,
        r matches Some(q) ==> q == coords(bytes@, c@, a@),
{
    if !(c.npefg > 0 && c.npefg <= 10_000_000) {
        return Some(p);
    }
    let fixed: usize = if c.npefg / 1000 == 4 { 5 } else { 4 };
    let mut pos: usize = match add_product(p, fixed, 1, limit) {
        Some(q) => q,
        None => return None,
    };
    pos = match add_product(pos, a.n_geom_vars, 9, limit) {
        Some(q) => q,
        None => return None,
    };
    pos = match add_product(pos, a.n_particle_state_vars, 9, limit) {
        Some(q) => q,
        None => return None,
    };
    add_product(pos, a.n_airbag_state_vars, 9, limit)
}

/// The first word after coordinates, connectivity and numbering.
fn skip_mesh(c: &Control, start: usize, limit: usize) -> (r: Option<usize>)
    requires
        start <= limit,
    ensures
        r is Some <==> numbered(c@, start as nat) <= limit,
        r matches Some(p) ==> p == numbered(c@, start as nat),
{
    let mut pos: usize = match add_product(start, c.numnp, 3, limit) {
        Some(p) => p,
        None => return None,
    };
    pos = match add_product(pos, c.nel8, 9, limit) {
        Some(p) => p,
        None => return None,
    };
    pos = match add_product(pos, c.nelth, 9, limit) {
        Some(p) => p,
        None => return None,
    };
    pos = match add_product(pos, c.nel2, 6, limit) {
        Some(p) => p,
        None => return None,
    };
    pos = match add_product(pos, c.nel4, 5, limit) {
        Some(p) => p,
        None => return None,
    };
    add_product(pos, c.narbs, 1, limit)
}

/// The number of rigid bodies at word `p` and the first word after them.
fn read_bodies(c: &Control, bytes: &[u8], p: usize, limit: usize) -> (r: Option<(usize, usize)>)
    requires
        is_word_size(c.wordsize as int),
        p <= limit,
        limit == word_limit(c.wordsize as nat),
    ensures
        r is Some <==> after_bodies(bytes@, c@, p as nat) <= limit && (has_rigid_body(c@)
            ==> count(word_at(bytes@, c.wordsize as nat, p as int)) <= usize::MAX),
        r matches Some(x) ==> x.1 == after_bodies(bytes@, c@, p as nat) && x.0 == (
        if has_rigid_body(c@) {
            count(word_at(bytes@, c.wordsize as nat, p as int))
        } else {
            c.n_rigids as nat
        }),
{
    if c.ndim == 8 || c.ndim == 9 {
        let ws: u64 = c.wordsize;
        proof {
            lemma_rigid_end_grows(
                bytes@,
                ws as nat,
                (p + 1) as nat,
                count(word_at(bytes@, ws as nat, p as int)),
            );
        }
        match (read_count(bytes, ws, p), add_product(p, 1, 1, limit)) {
            (Some(n), Some(first)) => match skip_rigid_bodies(bytes, ws, first, n, limit) {
                Some(end) => Some((n, end)),
                None => None,
            },
            _ => None,
        }
    } else {
        Some((c.n_rigids, p))
    }
}

/// The number of rigid roads at word `p` and the first word after them.
fn read_roads(c: &Control, bytes: &[u8], p: usize, limit: usize) -> (r: Option<(usize, usize)>)
    requires
        is_word_size(c.wordsize as int),
        p <= limit,
        limit == word_limit(c.wordsize as nat),
    ensures
        r is Some <==> after_roads(bytes@, c@, p as nat) <= limit && (has_rigid_road(c@)
            ==> count(word_at(bytes@, c.wordsize as nat, p as int + 2)) <= usize::MAX),
        r matches Some(x) ==> x.1 == after_roads(bytes@, c@, p as nat) && x.0 == (
        if has_rigid_road(c@) {
            count(word_at(bytes@, c.wordsize as nat, p as int + 2))
        } else {
            c.n_roads as nat
        }),
{
    if c.ndim == 6 || c.ndim == 9 {
        let ws: u64 = c.wordsize;
        proof {
            lemma_word_limit(0, ws as nat);
            lemma_road_end_grows(
                bytes@,
                ws as nat,
                p as nat + 4 + 4 * count(word_at(bytes@, ws as nat, p as int)),
                count(word_at(bytes@, ws as nat, p as int + 2)),
            );
        }
        match (read_count(bytes, ws, p), read_count(bytes, ws, p + 2), add_product(p, 4, 1, limit)) {
            (Some(nodes), Some(n), Some(head)) => match add_product(head, nodes, 4, limit) {
                Some(first) => match skip_roads(bytes, ws, first, n, limit) {
                    Some(end) => Some((n, end)),
                    None => None,
                },
                None => None,
            },
            _ => None,
        }
    } else {
        Some((c.n_roads, p))
    }
}

/// Walks the geometry section: the control block with the position of the node
/// coordinates, the end of the section, and the SPH, airbag, rigid body and rigid
/// road counts. `None` when they are beyond the machine's numbers.
pub fn walk_geometry(c: &Control, bytes: &[u8]) -> (r: Option<Control>)
    requires
        is_word_size(c.wordsize as int),
    ensures
        r is Some <==> geometry_fits(walked(bytes@, c@)),
        r matches Some(v) ==> v@ == walked(bytes@, c@),
{
    let ghost b = bytes@;
    let ghost h = c@;
    let ws: u64 = c.wordsize;
    let limit: usize = usize::MAX / ws as usize;
    proof {
        lemma_walk_order(b, h);
        lemma_word_limit(64, ws as nat);
        if ws == 4 {
            assert(64 * 4 <= usize::MAX);
        } else {
            assert(64 * 8 <= usize::MAX);
        }
    }
    let sph_at: usize = match find_sph_flags(c, limit) {
        Some(p) => p,
        None => return None,
    };
    let n_sph_vars: usize = if c.nmsph > 0 {
        match read_sph_vars(bytes, ws, sph_at) {
            Some(n) => n,
            None => return None,
        }
    } else {
        c.n_sph_vars
    };
    let airbags_at: usize = match find_airbag_flags(c, bytes, sph_at, limit) {
        Some(p) => p,
        None => return None,
    };
    let a: Control = match read_airbags(c, bytes, airbags_at) {
        Some(a) => a,
        None => return None,
    };
    let coords_at: usize = match find_coords(c, &a, bytes, airbags_at, limit) {
        Some(p) => p,
        None => return None,
    };
    let bodies_at: usize = match skip_mesh(c, coords_at, limit) {
        Some(p) => p,
        None => return None,
    };
    let (n_rigids, sph_nodes_at): (usize, usize) = match read_bodies(c, bytes, bodies_at, limit) {
        Some(x) => x,
        None => return None,
    };
    let airbag_geom_at: usize = match add_product(sph_nodes_at, c.nmsph, 2, limit) {
        Some(p) => p,
        None => return None,
    };
    let roads_at: usize = match add_product(airbag_geom_at, a.n_airbags, a.n_geom_vars, limit) {
        Some(p) => p,
        None => return None,
    };
    let (n_roads, shells_at): (usize, usize) = match read_roads(c, bytes, roads_at, limit) {
        Some(x) => x,
        None => return None,
    };
    let end: usize = match add_product(shells_at, c.nel48, 5, limit) {
        Some(p) => p,
        None => return None,
    };
    proof {
        lemma_word_limit(end as nat, ws as nat);
        lemma_word_limit(coords_at as nat, ws as nat);
    }
    let v: Control = Control {
        n_sph_vars,
        coord_off: coords_at as u64 * ws,
        n_rigids,
        reduced_rigid: c.ndim == 9,
        n_roads,
        geom_bytes: end as u64 * ws,
        ..a
    };
    Some(v)
}

/// Reads the header words. `None` when a count is beyond the machine's numbers.
fn read_header(bytes: &[u8], ws: u64) -> (r: Option<Control>)
    requires
        is_word_size(ws as int),
        2 <= word_at(bytes@, ws as nat, NDIM as int) <= 9,
    ensures
        r matches Some(c) ==> c@ == header_of(bytes@, ws as nat),
        r is None ==> !header_of(bytes@, ws as nat).counts_fit(),
{
    let ndim: i64 = read_word(bytes, ws, NDIM);
    let numnp_word: i64 = read_word(bytes, ws, NUMNP);
    if numnp_word < 0 {
        return None;
    }
    let extra: usize = read_count(bytes, ws, EXTRA)?;
    let nt3d: usize = if extra > 1 { read_count(bytes, ws, NT3D)? } else { 0 };
    let n_rigid_shells: usize = if ndim == 5 || ndim == 7 {
        if extra > usize::MAX - CONTROL_WORDS {
            assert(word_at(bytes@, ws as nat, 64 + extra as int) == 0) by {
                let len = bytes.len();
                assert((64 + extra) * ws >= 64 + extra) by (nonlinear_arith)
                    requires
                        ws >= 1,
                ;
            }
            0
        } else {
            read_count(bytes, ws, CONTROL_WORDS + extra)?
        }
    } else {
        0
    };
    let nv2d_word: i64 = read_word(bytes, ws, NV2D);
    let nv2d: usize = if nv2d_word >= 0 {
        to_count(nv2d_word)?
    } else {
        let magnitude: u64 = (-(nv2d_word as i128)) as u64;
        if magnitude > usize::MAX as u64 {
            return None;
        }
        magnitude as usize
    };
    let nglbv: usize = read_count(bytes, ws, NGLBV)?;
    let nmmat: usize = read_count(bytes, ws, NMMAT)?;
    let (n_rigid_walls, n_rigid_wall_vars): (usize, usize) = wall_layout(nglbv, nmmat);
    Some(
        Control {
            wordsize: ws,
            ndim: ndim as usize,
            numnp: to_count(numnp_word)?,
            nglbv,
            it: read_word(bytes, ws, IT),
            iu: read_word(bytes, ws, IU),
            iv: read_word(bytes, ws, IV),
            ia: read_word(bytes, ws, IA),
            nel8: read_count(bytes, ws, NEL8)?,
            nv3d: read_count(bytes, ws, NV3D)?,
            nelth: read_count(bytes, ws, NELTH)?,
            nv3dt: read_count(bytes, ws, NV3DT)?,
            nel2: read_count(bytes, ws, NEL2)?,
            nv1d: read_count(bytes, ws, NV1D)?,
            nel4: read_count(bytes, ws, NEL4)?,
            nv2d,
            narbs: read_count(bytes, ws, NARBS)?,
            maxint: read_word(bytes, ws, MAXINT),
            neips: read_count(bytes, ws, NEIPS)?,
            ioshl1: read_word(bytes, ws, IOSHL1),
            ioshl2: read_word(bytes, ws, IOSHL2),
            ioshl3: read_word(bytes, ws, IOSHL3),
            ioshl4: read_word(bytes, ws, IOSHL4),
            idtdt: read_word(bytes, ws, IDTDT),
            nt3d,
            n_rigid_shells,
            ialemat: read_count(bytes, ws, IALEMAT)?,
            npefg: read_word(bytes, ws, NPEFG),
            nel48: read_count(bytes, ws, NEL48)?,
            nmsph: read_count(bytes, ws, NMSPH)?,
            geom_bytes: 0,
            coord_off: 0,
            n_sph_vars: 0,
            n_airbags: 0,
            n_particles: 0,
            n_airbag_state_vars: 0,
            n_particle_state_vars: 0,
            n_geom_vars: 0,
            n_rigids: 0,
            reduced_rigid: false,
            n_roads: 0,
            nmmat,
            n_rigid_walls,
            n_rigid_wall_vars,
            extra,
            filetype: read_word(bytes, ws, FILETYPE),
            fsifor: nv2d_word < 0,
            nwear: read_count(bytes, ws, NWEAR)?,
            npresu: read_count(bytes, ws, NPRESU)?,
            nshear: read_count(bytes, ws, NSHEAR)?,
            nforce: read_count(bytes, ws, NFORCE)?,
            ngapc: read_count(bytes, ws, NGAPC)?,
        },
    )
}

/// The number of rigid walls and the words of each.
fn wall_layout(nglbv: usize, nmmat: usize) -> (r: (usize, usize))
    ensures
        r.1 == wall_vars(wall_tail(nglbv as nat, nmmat as nat)),
        r.0 == (if wall_tail(nglbv as nat, nmmat as nat) == 0 {
            0
        } else {
            wall_tail(nglbv as nat, nmmat as nat) / wall_vars(
                wall_tail(nglbv as nat, nmmat as nat),
            )
        }),
{
    let head: u128 = 6 + 7 * (nmmat as u128);
    if nglbv as u128 <= head {
        (0, 0)
    } else {
        let tail: usize = (nglbv as u128 - head) as usize;
        if tail % 4 == 0 {
            (tail / 4, 4)
        } else {
            (tail, 1)
        }
    }
}

/// The walls, with the words of each, fill the global variables that are left
/// over.
pub proof fn lemma_wall_room(nglbv: nat, nmmat: nat)
    ensures
        ({
            let tail = wall_tail(nglbv, nmmat);
            let walls = if tail == 0 {
                0
            } else {
                tail / wall_vars(tail)
            };
            &&& tail > 0 ==> 6 + 7 * nmmat + tail == nglbv
            &&& wall_vars(tail) == 4 ==> 4 * walls == tail
            &&& wall_vars(tail) == 1 ==> walls == tail
            &&& tail == 0 ==> walls == 0
        }),
{
    let tail = wall_tail(nglbv, nmmat);
    if tail > 0 && tail % 4 != 0 {
        assert(tail / 1 == tail);
    }
}

/// Words of one state, when they are no more than `limit`.
fn measure_state(c: &Control, limit: usize) -> (r: Option<usize>)
    requires
        1 <= limit,
        c.maxint > i64::MIN,
    ensures
        r is Some <==> c@.state_words() <= limit,
        r matches Some(n) ==> n == c@.state_words(),
{
    let u: usize = if c.iu != 0 { 3 } else { 0 };
    let v: usize = if c.iv != 0 { 3 } else { 0 };
    let a: usize = if c.ia != 0 { 3 } else { 0 };
    let therm: usize = c.node_therm_vars();
    let node_vars: usize = u + v + a + therm;
    assert(node_vars == c@.node_vars());
    let mut n: usize = add_product(1, c.nglbv, 1, limit)?;
    n = add_product(n, node_vars, c.numnp, limit)?;
    n = add_product(n, c.nt3d, c.nel8, limit)?;
    n = add_product(n, c.nel8, c.nv3d, limit)?;
    n = add_product(n, c.nelth, c.nv3dt, limit)?;
    n = add_product(n, c.nel2, c.nv1d, limit)?;
    n = add_product(n, c.n_shells_with_data(), c.nv2d, limit)?;
    assert(n == c@.deletion_off());
    let m: i64 = c.mdlopt();
    if m == 1 {
        n = add_product(n, c.numnp, 1, limit)?;
    } else if m == 2 {
        n = add_product(n, c.nel8, 1, limit)?;
        n = add_product(n, c.nel4, 1, limit)?;
        n = add_product(n, c.nel2, 1, limit)?;
        n = add_product(n, c.nelth, 1, limit)?;
    }
    assert(n == c@.sph_off());
    n = add_product(n, c.nmsph, c.n_sph_vars, limit)?;
    n = add_product(n, c.n_airbags, c.n_airbag_state_vars, limit)?;
    n = add_product(n, c.n_particles, c.n_particle_state_vars, limit)?;
    n = add_product(n, c.n_roads, 6, limit)?;
    assert(n == c@.rigid_off());
    let vars: usize = c.rigid_vars();
    add_product(n, c.n_rigids, vars, limit)
}

/// The message for a database whose sizes are beyond the machine's numbers.
pub open spec fn oversize() -> Seq<char> {
    "d3plot sizes exceed the address range"@
}

fn oversize_error() -> (e: D3plotError)
    ensures
        e.says(oversize()),
{
    D3plotError::Unsupported(String::from_str("d3plot sizes exceed the address range"))
}

/// The word size of a database.
fn detect_word_size(bytes: &[u8]) -> (r: Option<u64>)
    ensures
        r is Some <==> word_size_of(bytes@) is Some,
        r matches Some(ws) ==> word_size_of(bytes@) == Some(ws as nat) && is_word_size(ws as int)
            && 2 <= word_at(bytes@, ws as nat, NDIM as int) <= 9,
{
    let ndim32: i64 = try_read_int(bytes, NDIM * 4, 4)?;
    if 2 <= ndim32 && ndim32 <= 9 {
        return Some(4);
    }
    let ndim64: i64 = try_read_int(bytes, NDIM * 8, 8)?;
    if 2 <= ndim64 && ndim64 <= 9 {
        Some(8)
    } else {
        None
    }
}

/// The bytes reach to the last header word.
fn is_header_complete(bytes: &[u8], ws: u64) -> (r: bool)
    requires
        is_word_size(ws as int),
    ensures
        r == header_complete(bytes@, ws as nat),
{
    let len: usize = bytes.len();
    let (base, full): (usize, usize) = if ws == 4 {
        (256, 264)
    } else {
        (512, 528)
    };
    len >= base && (read_word(bytes, ws, EXTRA) <= 1 || len >= full)
}

/// The sizes of a control block whose geometry was walked can be addressed.
fn sizes_fit(c: &Control) -> (r: bool)
    requires
        is_word_size(c.wordsize as int),
        c@.geom_bytes <= usize::MAX,
        c@.coord_off + (3 * c@.numnp + c@.connectivity_words() + c@.narbs) * c@.wordsize
            <= c@.geom_bytes,
    ensures
        r == c.wf(),
{
    if c.maxint == i64::MIN {
        return false;
    }
    let layers: u64 = if c.maxint >= 0 {
        c.maxint as u64
    } else if -c.maxint >= MDLOPT_ELEMENT_DELETION {
        (-c.maxint - MDLOPT_ELEMENT_DELETION) as u64
    } else {
        (-c.maxint) as u64
    };
    if layers > usize::MAX as u64 {
        return false;
    }
    let limit: usize = if c.wordsize == 4 { usize::MAX / 4 } else { usize::MAX / 8 };
    proof {
        lemma_word_limit(c@.state_words(), c.wordsize as nat);
    }
    measure_state(c, limit).is_some()
}

/// Detects the word size and reads the control block of the base file of a
/// database.
pub fn read_control_bytes(bytes: &[u8]) -> (r: Result<Control, D3plotError>)
    ensures
        r matches Ok(c) ==> control_of(bytes@) == Some(c@) && c.wf(),
        r matches Err(e) ==> match control_of(bytes@) {
            None => e is BadHeader,
            Some(v) => !v.fits() && e.says(oversize()),
        },
{
    proof {
        reveal(control_of);
    }
    let ws: u64 = match detect_word_size(bytes) {
        Some(ws) => ws,
        None => return Err(D3plotError::BadHeader),
    };
    if !is_header_complete(bytes, ws) {
        return Err(D3plotError::BadHeader);
    }
    let ghost h = header_of(bytes@, ws as nat);
    assert(control_of(bytes@) == Some(walked(bytes@, h)));
    proof {
        lemma_walked_counts(bytes@, h);
    }
    let header: Control = match read_header(bytes, ws) {
        Some(c) => c,
        None => return Err(oversize_error()),
    };
    let ctrl: Control = match walk_geometry(&header, bytes) {
        Some(c) => c,
        None => return Err(oversize_error()),
    };
    proof {
        lemma_walk_order(bytes@, h);
    }
    if sizes_fit(&ctrl) {
        Ok(ctrl)
    } else {
        Err(oversize_error())
    }
}

/// Counts of the header, and of the geometry section, are machine numbers where
/// those of the whole control block are.
proof fn lemma_walked_counts(b: Seq<u8>, h: ControlView)
    requires
        h.n_sph_vars == 0,
        h.n_particles == 0,
        h.n_airbag_state_vars == 0,
        h.n_particle_state_vars == 0,
        h.n_geom_vars == 0,
        h.n_rigids == 0,
        h.n_roads == 0,
    ensures
        walked(b, h).fits() ==> h.counts_fit() && geometry_fits(walked(b, h)),
{
}

/// Counts of the header are signed numbers that are not negative.
pub proof fn lemma_header_counts(b: Seq<u8>)
    ensures
        control_of(b) matches Some(v) ==> {
            &&& v.numnp <= i64::MAX
            &&& v.nel8 <= i64::MAX
            &&& v.nel4 <= i64::MAX
            &&& v.nmmat <= i64::MAX
        },
{
    reveal(control_of);
    if let Some(ws) = word_size_of(b) {
        lemma_word_bound(b, ws, NUMNP as int);
        lemma_word_bound(b, ws, NEL8 as int);
        lemma_word_bound(b, ws, NEL4 as int);
        lemma_word_bound(b, ws, NMMAT as int);
    }
}

proof fn lemma_word_bound(b: Seq<u8>, ws: nat, k: int)
    requires
        is_word_size(ws as int),
    ensures
        i64::MIN <= word_at(b, ws, k) <= i64::MAX,
{
    crate::le::lemma_pow256_values();
    crate::le::lemma_le_at_bound(b, k * ws, ws);
}

} // verus!
