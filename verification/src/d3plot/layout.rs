//! What a reader makes of a written database, part one: the control block.

use crate::d3plot::control::{ControlView, EXTRA, NDIM};
use crate::d3plot::header::{
    after_bodies, after_roads, airbag_flags, control_of, coords, count, header_complete, header_of,
    numbered, rigid_end, road_end, sph_flags, sph_vars, wall_tail, wall_vars, walked, with_airbags,
    word_at, word_size_of,
};
use crate::d3plot::image::{
    bodies_words, body_words, monus, rows, surface_words, surfaces_words, width_of,
};
use crate::d3plot::narbs::{numbers, seq_of};
use crate::d3plot::words::{
    floats, holds_at, int_at, ints, is_word_size, lemma_encode_holds, lemma_encode_len,
    lemma_read_int, Word,
};
use crate::d3plot::writer::{
    body_parts, max_of, parts5, parts6, parts9, D3plotWriter, Deletion, RigidBody,
};
use crate::le::{lemma_le_at_same, lemma_pow256_values, lemma_signed_wrap, wrap_i32};
use vstd::prelude::*;

verus! {

/// `v` is a non-negative number of a signed 32-bit word.
pub open spec fn small(v: int) -> bool {
    0 <= v <= i32::MAX
}

/// The ids, if given, are as many as the entities.
pub open spec fn ids_match(ids: Option<Vec<i32>>, n: nat) -> bool {
    ids matches Some(v) ==> v@.len() == n
}

impl D3plotWriter {
    /// The counts that a reader takes from the bytes come back as they were: they
    /// fit 32-bit words, and the packed flags do not run into each other.
    pub open spec fn recoverable(self) -> bool {
        &&& self.wf()
        &&& self.countable()
        &&& self.validation_error() is None
        &&& ids_match(self.node_ids, self.numnp as nat)
        &&& ids_match(self.solid_ids, self.solids@.len())
        &&& ids_match(self.beam_ids, self.beams@.len())
        &&& ids_match(self.shell_ids, self.shells@.len())
        &&& ids_match(self.tshell_ids, self.tshells@.len())
        &&& small(self.numbering().len() as int)
        &&& small(self.n_globals() as int)
        &&& small(width_of(self.solid_results) as int)
        &&& small(width_of(self.tshell_results) as int)
        &&& small(width_of(self.beam_results) as int)
        &&& small(width_of(self.shell_results) as int)
        &&& match self.deletion {
            None => small(self.shell_layers as int),
            Some(Deletion::Node(_)) => self.shell_layers < 10000,
            Some(Deletion::Element { .. }) => small(self.shell_layers + 10000),
        }
        &&& small(self.n_particles() as int)
        &&& small(self.n_sph_vars() as int)
        &&& (self.airbag matches Some(a) ==> {
            &&& 1 <= a.n_airbags < 1000
            &&& small(a.n_particles as int)
            &&& small(a.n_geom_vars as int)
            &&& small(a.n_airbag_vars as int)
            &&& small(a.n_particle_vars as int)
        })
        &&& (self.rigid_bodies matches Some(b) ==> {
            &&& small(b.bodies@.len() as int)
            &&& forall|i: int|
                0 <= i < b.bodies@.len() ==> small((#[trigger] b.bodies@[i]).nodes@.len() as int)
                    && small(b.bodies@[i].active_nodes@.len() as int)
        })
        &&& (self.rigid_road matches Some(r) ==> {
            &&& small(r.node_ids@.len() as int)
            &&& small(r.segments@.len() as int)
            &&& forall|i: int|
                0 <= i < r.segments@.len() ==> small((#[trigger] r.segments@[i]).1@.len() as int)
        })
        // in double precision, the title must not look like a single-precision NDIM
        &&& self.wordsize == 8 ==> !(2 <= int_at(self.title_image(), 60, 4) <= 9)
        &&& self.image().len() <= usize::MAX
        &&& self.layout().bytes_per_state() <= usize::MAX
    }

    /// Words from the start of the file to the node coordinates.
    pub open spec fn coord_words(self) -> nat {
        64 + self.sph_flag_words().len() + self.airbag_flag_words().len()
    }

    /// Words from the start of the file to the first state.
    pub open spec fn geometry_len(self) -> nat {
        10 + self.geometry_words().len()
    }

    /// The control block of the database.
    pub open spec fn layout(self) -> ControlView {
        let tail = wall_tail(self.n_globals(), self.n_parts());
        let airbags: nat = match self.airbag {
            Some(a) => a.n_airbags as nat,
            None => 0,
        };
        ControlView {
            wordsize: self.wordsize as nat,
            ndim: self.ndim_flag(),
            numnp: self.numnp as int,
            nglbv: self.n_globals(),
            it: self.it_flag(),
            iu: 1,
            iv: if self.fields.velocity {
                1
            } else {
                0
            },
            ia: if self.fields.acceleration {
                1
            } else {
                0
            },
            nel8: self.solids@.len(),
            nv3d: width_of(self.solid_results),
            nelth: self.tshells@.len(),
            nv3dt: width_of(self.tshell_results),
            nel2: self.beams@.len(),
            nv1d: width_of(self.beam_results),
            nel4: self.shells@.len(),
            nv2d: width_of(self.shell_results),
            narbs: self.numbering().len(),
            maxint: self.maxint_flag(),
            neips: monus(self.shell_per_layer(), self.base_vars()),
            ioshl1: if self.has_stress() {
                1000
            } else {
                0
            },
            ioshl2: if self.has_pstrain() {
                1000
            } else {
                0
            },
            ioshl3: 0,
            ioshl4: 0,
            idtdt: self.idtdt_flag(),
            nt3d: 0,
            n_rigid_shells: 0,
            ialemat: 0,
            npefg: airbags as int,
            nel48: 0,
            nmsph: self.n_particles(),
            geom_bytes: self.geometry_len() * self.wordsize as nat,
            coord_off: self.coord_words() * self.wordsize as nat,
            n_sph_vars: if self.n_particles() > 0 {
                self.n_sph_vars()
            } else {
                0
            },
            n_airbags: airbags,
            n_particles: match self.airbag {
                Some(a) => a.n_particles as nat,
                None => 0,
            },
            n_airbag_state_vars: match self.airbag {
                Some(a) => a.n_airbag_vars as nat,
                None => 0,
            },
            n_particle_state_vars: match self.airbag {
                Some(a) => a.n_particle_vars as nat,
                None => 0,
            },
            n_geom_vars: match self.airbag {
                Some(a) => a.n_geom_vars as nat,
                None => 0,
            },
            n_rigids: match self.rigid_bodies {
                Some(b) => b.bodies@.len(),
                None => 0,
            },
            reduced_rigid: self.ndim_flag() == 9,
            n_roads: match self.rigid_road {
                Some(r) => r.segments@.len(),
                None => 0,
            },
            nmmat: self.n_parts(),
            n_rigid_walls: if tail == 0 {
                0
            } else {
                tail / wall_vars(tail)
            },
            n_rigid_wall_vars: wall_vars(tail),
            extra: 0,
            filetype: 1,
            fsifor: false,
            nwear: 0,
            npresu: 0,
            nshear: 0,
            nforce: 0,
            ngapc: 0,
        }
    }
}

/// Two runs of words held one behind the other are held each in its place.
pub proof fn lemma_holds_split(b: Seq<u8>, ws: nat, k: int, s: Seq<Word>, t: Seq<Word>)
    requires
        holds_at(b, ws, k, s + t),
    ensures
        holds_at(b, ws, k, s),
        holds_at(b, ws, k + s.len(), t),
{
    let all = s + t;
    assert(all.subrange(0, 0 + s.len() as int) =~= s);
    assert(all.subrange(s.len() as int, s.len() as int + t.len()) =~= t);
    crate::d3plot::words::lemma_holds_part(b, ws, k, all, 0, s);
    crate::d3plot::words::lemma_holds_part(b, ws, k, all, s.len() as int, t);
}

/// A small number survives wrapping into 32 bits.
pub proof fn lemma_wrap_small(v: int)
    requires
        i32::MIN <= v <= i32::MAX,
    ensures
        wrap_i32(v) == v,
{
    lemma_pow256_values();
    lemma_signed_wrap(v, 4);
}

/// A wrapped number is a 32-bit number.
pub proof fn lemma_wrap_range(v: int)
    ensures
        i32::MIN <= wrap_i32(v) <= i32::MAX,
{
    lemma_pow256_values();
    assert(0 <= v % 0x1_0000_0000 < 0x1_0000_0000);
}

proof fn lemma_max_bound(s: Seq<int>)
    requires
        forall|i: int| 0 <= i < s.len() ==> #[trigger] s[i] <= i32::MAX,
    ensures
        max_of(s) <= i32::MAX,
    decreases s.len(),
{
    if s.len() > 0 {
        lemma_max_bound(s.drop_last());
    }
}

/// There are no more parts than a 32-bit number can count.
pub proof fn lemma_parts_bound(w: D3plotWriter)
    ensures
        w.n_parts() <= i32::MAX,
{
    lemma_max_bound(parts9(w.solids@));
    lemma_max_bound(parts9(w.tshells@));
    lemma_max_bound(parts6(w.beams@));
    lemma_max_bound(parts5(w.shells@));
    if let Some(rb) = w.rigid_bodies {
        lemma_max_bound(body_parts(rb.bodies@));
    }
}

pub proof fn lemma_rows_len<const N: usize>(s: Seq<[i32; N]>)
    ensures
        rows(s).len() == s.len() * N,
    decreases s.len(),
{
    if s.len() > 0 {
        lemma_rows_len(s.drop_last());
        assert(s.last()@.len() == N);
        assert(s.len() * N == (s.len() - 1) * N + N) by (nonlinear_arith);
    } else {
        assert(0 * N == 0);
    }
}

/// The header words are read back.
proof fn lemma_header_words(w: D3plotWriter, b: Seq<u8>)
    requires
        w.recoverable(),
        holds_at(b, w.wordsize as nat, 10, w.header_words()),
    ensures
        forall|k: int|
            10 <= k < 64 ==> #[trigger] word_at(b, w.wordsize as nat, k) == w.header_word(k),
        64 * w.wordsize as nat <= b.len(),
{
    let ws = w.wordsize as nat;
    lemma_parts_bound(w);
    assert forall|k: int| 10 <= k < 64 implies #[trigger] word_at(b, ws, k) == w.header_word(k) by {
        lemma_header_range(w, k);
        let i = k - 10;
        assert(w.header_words()[i] == Word::Int(w.header_word(k)));
        lemma_read_int(b, ws, 10, w.header_words(), i);
    }
    lemma_read_int(b, ws, 10, w.header_words(), 53);
}

pub proof fn lemma_header_range(w: D3plotWriter, k: int)
    requires
        w.countable(),
    ensures
        i32::MIN <= w.header_word(k) <= i32::MAX,
{
    lemma_parts_bound(w);
    lemma_wrap_range(w.numnp as int);
    lemma_wrap_range(w.n_globals() as int);
    lemma_wrap_range(w.solids@.len() as int);
    lemma_wrap_range(width_of(w.solid_results) as int);
    lemma_wrap_range(w.beams@.len() as int);
    lemma_wrap_range(width_of(w.beam_results) as int);
    lemma_wrap_range(w.shells@.len() as int);
    lemma_wrap_range(width_of(w.shell_results) as int);
    lemma_wrap_range(monus(width_of(w.solid_results), w.base_vars()) as int);
    lemma_wrap_range(monus(w.shell_per_layer(), w.base_vars()) as int);
    lemma_wrap_range(w.shell_layers as int);
    lemma_wrap_range(w.shell_layers + 10000);
    lemma_wrap_range(w.n_particles() as int);
    lemma_wrap_range(w.numbering().len() as int);
    lemma_wrap_range(w.tshells@.len() as int);
    lemma_wrap_range(width_of(w.tshell_results) as int);
    if let Some(a) = w.airbag {
        lemma_wrap_range(a.n_airbags as int);
    }
}

/// The element counts are machine numbers.
pub proof fn lemma_vec_lens(w: D3plotWriter)
    ensures
        w.solids@.len() <= usize::MAX,
        w.beams@.len() <= usize::MAX,
        w.shells@.len() <= usize::MAX,
        w.tshells@.len() <= usize::MAX,
        w.states@.len() <= usize::MAX,
{
    assert(w.solids@.len() == w.solids.len());
    assert(w.beams@.len() == w.beams.len());
    assert(w.shells@.len() == w.shells.len());
    assert(w.tshells@.len() == w.tshells.len());
    assert(w.states@.len() == w.states.len());
}

/// The header that a reader sees.
pub open spec fn written_header(w: D3plotWriter) -> ControlView {
    ControlView {
        geom_bytes: 0,
        coord_off: 0,
        n_sph_vars: 0,
        n_airbags: 0,
        n_particles: 0,
        n_airbag_state_vars: 0,
        n_particle_state_vars: 0,
        n_geom_vars: 0,
        n_rigids: 0,
        reduced_rigid: false,
        n_roads: 0,
        ..w.layout()
    }
}

#[verifier::rlimit(60)]
#[verifier::spinoff_prover]
proof fn lemma_header(w: D3plotWriter, b: Seq<u8>)
    requires
        w.recoverable(),
        holds_at(b, w.wordsize as nat, 10, w.header_words()),
    ensures
        header_of(b, w.wordsize as nat) == written_header(w),
        header_complete(b, w.wordsize as nat),
{
    let ws = w.wordsize as nat;
    lemma_header_words(w, b);
    lemma_parts_bound(w);
    lemma_vec_lens(w);
    assert(small(w.numnp as int) && small(w.solids@.len() as int) && small(w.beams@.len() as int)
        && small(w.shells@.len() as int) && small(w.tshells@.len() as int));
    lemma_wrap_small(w.numnp as int);
    lemma_wrap_small(w.n_globals() as int);
    lemma_wrap_small(w.solids@.len() as int);
    lemma_wrap_small(width_of(w.solid_results) as int);
    lemma_wrap_small(w.beams@.len() as int);
    lemma_wrap_small(width_of(w.beam_results) as int);
    lemma_wrap_small(w.shells@.len() as int);
    lemma_wrap_small(width_of(w.shell_results) as int);
    let spl = w.shell_per_layer();
    assert(spl <= width_of(w.shell_results)) by (nonlinear_arith)
        requires
            spl == width_of(w.shell_results) / (w.shell_layers as nat),
            w.shell_layers >= 1,
    ;
    lemma_wrap_small(monus(spl, w.base_vars()) as int);
    lemma_wrap_small(w.n_particles() as int);
    lemma_wrap_small(w.numbering().len() as int);
    lemma_wrap_small(w.tshells@.len() as int);
    lemma_wrap_small(width_of(w.tshell_results) as int);
    if let Some(a) = w.airbag {
        lemma_wrap_small(a.n_airbags as int);
    }
    let h = header_of(b, ws);
    let e = written_header(w);
    assert(word_at(b, ws, EXTRA as int) == 0);
    assert(h.ndim == e.ndim && h.numnp == e.numnp && h.nglbv == e.nglbv);
    assert(h.it == e.it && h.iu == e.iu && h.iv == e.iv && h.ia == e.ia);
    assert(h.nel8 == e.nel8 && h.nv3d == e.nv3d && h.nelth == e.nelth && h.nv3dt == e.nv3dt);
    assert(h.nel2 == e.nel2 && h.nv1d == e.nv1d && h.nel4 == e.nel4 && h.nv2d == e.nv2d);
    assert(h.narbs == e.narbs && h.maxint == e.maxint && h.neips == e.neips);
    assert(h.ioshl1 == e.ioshl1 && h.ioshl2 == e.ioshl2 && h.ioshl3 == e.ioshl3 && h.ioshl4
        == e.ioshl4);
    assert(h.idtdt == e.idtdt && h.nt3d == e.nt3d && h.n_rigid_shells == e.n_rigid_shells);
    assert(h.ialemat == e.ialemat && h.npefg == e.npefg && h.nel48 == e.nel48 && h.nmsph
        == e.nmsph);
    assert(h.nmmat == e.nmmat && h.n_rigid_walls == e.n_rigid_walls && h.n_rigid_wall_vars
        == e.n_rigid_wall_vars);
    assert(h.extra == e.extra && h.filetype == e.filetype && h.fsifor == e.fsifor);
    assert(h.nwear == e.nwear && h.npresu == e.npresu && h.nshear == e.nshear && h.nforce
        == e.nforce && h.ngapc == e.ngapc);
}

/// The word size is recognized.
proof fn lemma_word_size(w: D3plotWriter)
    requires
        w.recoverable(),
        holds_at(w.image(), w.wordsize as nat, 10, w.header_words()),
    ensures
        word_size_of(w.image()) == Some(w.wordsize as nat),
{
    let b = w.image();
    lemma_header_words(w, b);
    assert(word_at(b, w.wordsize as nat, NDIM as int) == w.ndim_flag());
    if w.wordsize == 8 {
        let t = w.title_image();
        assert(t.len() == 80);
        assert forall|j: int| 0 <= j < 4 implies #[trigger] b[60 + j] == t[60 + j] by {}
        lemma_le_at_same(b, 60, t, 60, 4);
        assert(word_at(b, 4, NDIM as int) == int_at(t, 60, 4));
    }
}

proof fn lemma_rigid_end_adds(b: Seq<u8>, ws: nat, p: nat, n: nat, m: nat)
    ensures
        rigid_end(b, ws, p, n + m) == rigid_end(b, ws, rigid_end(b, ws, p, n), m),
    decreases n,
{
    if n > 0 {
        let q = p + 2 + count(word_at(b, ws, p as int + 1));
        lemma_rigid_end_adds(
            b,
            ws,
            q + 1 + count(word_at(b, ws, q as int)),
            (n - 1) as nat,
            m,
        );
    }
}

proof fn lemma_one_body(b: Seq<u8>, ws: nat, k: nat, x: RigidBody)
    requires
        is_word_size(ws as int),
        holds_at(b, ws, k as int, body_words(x)),
        small(x.nodes@.len() as int),
        small(x.active_nodes@.len() as int),
    ensures
        rigid_end(b, ws, k, 1) == k + body_words(x).len(),
{
    let s = body_words(x);
    let n = x.nodes@.len();
    assert(s[1] == Word::Int(n as int));
    lemma_read_int(b, ws, k as int, s, 1);
    let q = k + 2 + n;
    assert(s[2 + n as int] == Word::Int(x.active_nodes@.len() as int));
    lemma_read_int(b, ws, k as int, s, 2 + n as int);
    assert(word_at(b, ws, k as int + 1) == n);
    assert(word_at(b, ws, q as int) == x.active_nodes@.len());
    reveal_with_fuel(rigid_end, 2);
}

proof fn lemma_bodies(b: Seq<u8>, ws: nat, k: nat, s: Seq<RigidBody>)
    requires
        is_word_size(ws as int),
        holds_at(b, ws, k as int, bodies_words(s)),
        forall|i: int|
            0 <= i < s.len() ==> small((#[trigger] s[i]).nodes@.len() as int) && small(
                s[i].active_nodes@.len() as int,
            ),
    ensures
        rigid_end(b, ws, k, s.len()) == k + bodies_words(s).len(),
    decreases s.len(),
{
    if s.len() > 0 {
        let rest = s.drop_last();
        lemma_holds_split(b, ws, k as int, bodies_words(rest), body_words(s.last()));
        assert forall|i: int| 0 <= i < rest.len() implies small(
            (#[trigger] rest[i]).nodes@.len() as int,
        ) && small(rest[i].active_nodes@.len() as int) by {
            assert(rest[i] == s[i]);
        }
        lemma_bodies(b, ws, k, rest);
        lemma_rigid_end_adds(b, ws, k, rest.len(), 1);
        assert(s[s.len() - 1] == s.last());
        lemma_one_body(b, ws, k + bodies_words(rest).len(), s.last());
    }
}

proof fn lemma_road_end_adds(b: Seq<u8>, ws: nat, p: nat, n: nat, m: nat)
    ensures
        road_end(b, ws, p, n + m) == road_end(b, ws, road_end(b, ws, p, n), m),
    decreases n,
{
    if n > 0 {
        lemma_road_end_adds(
            b,
            ws,
            p + 2 + 4 * count(word_at(b, ws, p as int + 1)),
            (n - 1) as nat,
            m,
        );
    }
}

proof fn lemma_one_surface(b: Seq<u8>, ws: nat, k: nat, x: (i32, Vec<i32>))
    requires
        is_word_size(ws as int),
        holds_at(b, ws, k as int, surface_words(x)),
        small(x.1@.len() as int),
        x.1@.len() % 4 == 0,
    ensures
        road_end(b, ws, k, 1) == k + surface_words(x).len(),
{
    let s = surface_words(x);
    let n = x.1@.len() / 4;
    assert(s[1] == Word::Int(n as int));
    lemma_read_int(b, ws, k as int, s, 1);
    assert(word_at(b, ws, k as int + 1) == n);
    reveal_with_fuel(road_end, 2);
}

proof fn lemma_surfaces(b: Seq<u8>, ws: nat, k: nat, s: Seq<(i32, Vec<i32>)>)
    requires
        is_word_size(ws as int),
        holds_at(b, ws, k as int, surfaces_words(s)),
        forall|i: int|
            0 <= i < s.len() ==> small((#[trigger] s[i]).1@.len() as int) && s[i].1@.len() % 4 == 0,
    ensures
        road_end(b, ws, k, s.len()) == k + surfaces_words(s).len(),
    decreases s.len(),
{
    if s.len() > 0 {
        let rest = s.drop_last();
        lemma_holds_split(b, ws, k as int, surfaces_words(rest), surface_words(s.last()));
        assert forall|i: int| 0 <= i < rest.len() implies small((#[trigger] rest[i]).1@.len() as int)
            && rest[i].1@.len() % 4 == 0 by {
            assert(rest[i] == s[i]);
        }
        lemma_surfaces(b, ws, k, rest);
        lemma_road_end_adds(b, ws, k, rest.len(), 1);
        assert(s[s.len() - 1] == s.last());
        lemma_one_surface(b, ws, k + surfaces_words(rest).len(), s.last());
    }
}

proof fn lemma_segments_whole(s: Seq<(i32, Vec<i32>)>, i: int)
    requires
        crate::d3plot::validate::segment_error(s, i) is None,
        0 <= i,
    ensures
        forall|k: int| i <= k < s.len() ==> (#[trigger] s[k]).1@.len() % 4 == 0,
    decreases s.len() - i,
{
    if i < s.len() {
        lemma_segments_whole(s, i + 1);
    }
}

/// Words from the start of the file to the numbering section.
pub open spec fn narbs_start(w: D3plotWriter) -> nat {
    w.coord_words() + w.mesh_words().len()
}

/// Words from the start of the file to the rigid bodies.
pub open spec fn bodies_start(w: D3plotWriter) -> nat {
    narbs_start(w) + w.narbs_words().len()
}

/// Words from the start of the file to the SPH node list.
pub open spec fn sph_nodes_start(w: D3plotWriter) -> nat {
    bodies_start(w) + w.rigid_body_words().len()
}

/// Words from the start of the file to the rigid roads.
pub open spec fn roads_start(w: D3plotWriter) -> nat {
    sph_nodes_start(w) + w.sph_node_words().len() + w.airbag_geometry_words().len()
}

/// Every part of the geometry stands in its place, and the states behind it.
#[verifier::rlimit(60)]
#[verifier::spinoff_prover]
pub proof fn lemma_sections(w: D3plotWriter, b: Seq<u8>)
    requires
        holds_at(b, w.wordsize as nat, 10, w.words()),
    ensures
        ({
            let ws = w.wordsize as nat;
            &&& holds_at(b, ws, 10, w.header_words())
            &&& holds_at(b, ws, 64, w.sph_flag_words())
            &&& holds_at(b, ws, 64 + w.sph_flag_words().len() as int, w.airbag_flag_words())
            &&& holds_at(b, ws, w.coord_words() as int, w.mesh_words())
            &&& holds_at(b, ws, narbs_start(w) as int, w.narbs_words())
            &&& holds_at(b, ws, bodies_start(w) as int, w.rigid_body_words())
            &&& holds_at(b, ws, roads_start(w) as int, w.road_words())
            &&& holds_at(b, ws, w.geometry_len() as int, w.states_words(w.n_states()))
            &&& w.geometry_len() == roads_start(w) + w.road_words().len()
        }),
{
    let ws = w.wordsize as nat;
    let s0 = w.header_words();
    let s1 = w.sph_flag_words();
    let s2 = w.airbag_flag_words();
    let s3 = w.mesh_words();
    let s4 = w.narbs_words();
    let s5 = w.rigid_body_words();
    let s6 = w.sph_node_words();
    let s7 = w.airbag_geometry_words();
    let s8 = w.road_words();
    let g = w.geometry_words();
    let st = w.states_words(w.n_states());
    lemma_holds_split(b, ws, 10, g + st, seq![Word::Float(crate::d3plot::image::EOF_MARKER)]);
    lemma_holds_split(b, ws, 10, g, st);
    lemma_holds_split(b, ws, 10, s0 + s1 + s2 + s3 + s4 + s5 + s6 + s7, s8);
    lemma_holds_split(b, ws, 10, s0 + s1 + s2 + s3 + s4 + s5 + s6, s7);
    lemma_holds_split(b, ws, 10, s0 + s1 + s2 + s3 + s4 + s5, s6);
    lemma_holds_split(b, ws, 10, s0 + s1 + s2 + s3 + s4, s5);
    lemma_holds_split(b, ws, 10, s0 + s1 + s2 + s3, s4);
    lemma_holds_split(b, ws, 10, s0 + s1 + s2, s3);
    lemma_holds_split(b, ws, 10, s0 + s1, s2);
    lemma_holds_split(b, ws, 10, s0, s1);
}

/// The bytes of the database hold its words.
pub proof fn lemma_image_holds(w: D3plotWriter)
    requires
        is_word_size(w.wordsize as int),
    ensures
        holds_at(w.image(), w.wordsize as nat, 10, w.words()),
        w.image().len() == (w.geometry_len() + w.states_words(w.n_states()).len() + 1)
            * w.wordsize as nat,
{
    let ws = w.wordsize as nat;
    lemma_encode_holds(w.title_image(), ws, w.words(), 10);
    lemma_encode_len(ws, w.words());
    let n = w.words().len();
    assert(n == w.geometry_words().len() + w.states_words(w.n_states()).len() + 1);
    assert(10 * ws + n * ws == (10 + n) * ws) by (nonlinear_arith);
}

/// Lengths of the mesh and of the numbering section.
pub proof fn lemma_mesh_len(w: D3plotWriter)
    requires
        w.recoverable(),
    ensures
        w.mesh_words().len() == 3 * w.numnp + w.layout().connectivity_words(),
        w.narbs_words().len() == w.numbering().len(),
{
    lemma_rows_len(w.solids@);
    lemma_rows_len(w.tshells@);
    lemma_rows_len(w.beams@);
    lemma_rows_len(w.shells@);
    lemma_vec_lens(w);
    lemma_parts_bound(w);
    assert(rows(w.solids@).len() == 9 * w.solids@.len());
    assert(rows(w.tshells@).len() == 9 * w.tshells@.len());
    assert(rows(w.beams@).len() == 6 * w.beams@.len());
    assert(rows(w.shells@).len() == 5 * w.shells@.len());
    let n = w.numbering();
    let ids = w.user_ids();
    assert(numbers(seq_of(ids.nodes), n.nodes as nat).len() == n.nodes);
    assert(numbers(seq_of(ids.solids), n.solids as nat).len() == n.solids);
    assert(numbers(seq_of(ids.beams), n.beams as nat).len() == n.beams);
    assert(numbers(seq_of(ids.shells), n.shells as nat).len() == n.shells);
    assert(numbers(seq_of(ids.tshells), n.tshells as nat).len() == n.tshells);
    assert(n.header().len() == 16);
}

/// The flags in front of the mesh are read back.
#[verifier::rlimit(60)]
#[verifier::spinoff_prover]
proof fn lemma_flags(w: D3plotWriter, b: Seq<u8>)
    requires
        w.recoverable(),
        holds_at(b, w.wordsize as nat, 10, w.words()),
    ensures
        ({
            let h = written_header(w);
            let a = with_airbags(b, h);
            let e = w.layout();
            &&& sph_flags(h) == 64
            &&& airbag_flags(b, h) == 64 + w.sph_flag_words().len()
            &&& h.nmsph > 0 ==> sph_vars(b, h.wordsize, 64) == w.n_sph_vars()
            &&& a == ControlView {
                n_airbags: e.n_airbags,
                n_geom_vars: e.n_geom_vars,
                n_particle_state_vars: e.n_particle_state_vars,
                n_particles: e.n_particles,
                n_airbag_state_vars: e.n_airbag_state_vars,
                ..h
            }
            &&& coords(b, h, a) == w.coord_words()
        }),
{
    let ws = w.wordsize as nat;
    lemma_sections(w, b);
    let h = written_header(w);
    let f = w.sph_flag_words();
    if h.nmsph > 0 {
        assert(f.len() == 11);
        assert(w.sph_error() is None);
        lemma_read_int(b, ws, 64, f, 0);
        lemma_read_int(b, ws, 64, f, 1);
        lemma_read_int(b, ws, 64, f, 2);
        lemma_read_int(b, ws, 64, f, 3);
        lemma_read_int(b, ws, 64, f, 4);
        lemma_read_int(b, ws, 64, f, 5);
        lemma_read_int(b, ws, 64, f, 6);
        lemma_read_int(b, ws, 64, f, 7);
        lemma_read_int(b, ws, 64, f, 8);
        lemma_read_int(b, ws, 64, f, 9);
        lemma_read_int(b, ws, 64, f, 10);
        assert(f[0] == Word::Int(11) && f[1] == Word::Int(w.n_sph_vars() - 1));
        assert(forall|i: int| 2 <= i < 11 ==> f[i] == Word::Int(0));
    }
    let p = 64 + f.len() as int;
    let x = w.airbag_flag_words();
    if let Some(a) = w.airbag {
        lemma_read_int(b, ws, p, x, 0);
        lemma_read_int(b, ws, p, x, 1);
        lemma_read_int(b, ws, p, x, 2);
        lemma_read_int(b, ws, p, x, 3);
        assert(x[0] == Word::Int(a.n_geom_vars as int));
        assert(x[1] == Word::Int(a.n_particle_vars as int));
        assert(x[2] == Word::Int(a.n_particles as int));
        assert(x[3] == Word::Int(a.n_airbag_vars as int));
    }
}

/// The rigid bodies are walked to their end.
proof fn lemma_after_bodies(w: D3plotWriter, b: Seq<u8>)
    requires
        w.recoverable(),
        holds_at(b, w.wordsize as nat, 10, w.words()),
    ensures
        after_bodies(b, written_header(w), bodies_start(w)) == sph_nodes_start(w),
        w.rigid_bodies matches Some(rb) ==> word_at(
            b,
            w.wordsize as nat,
            bodies_start(w) as int,
        ) == rb.bodies@.len(),
{
    let ws = w.wordsize as nat;
    lemma_sections(w, b);
    let p = bodies_start(w);
    if let Some(rb) = w.rigid_bodies {
        let s = w.rigid_body_words();
        let head = seq![Word::Int(rb.bodies@.len() as int)];
        assert(s == head + bodies_words(rb.bodies@));
        lemma_holds_split(b, ws, p as int, head, bodies_words(rb.bodies@));
        lemma_read_int(b, ws, p as int, s, 0);
        lemma_bodies(b, ws, p + 1, rb.bodies@);
    }
}

/// The rigid roads are walked to their end.
proof fn lemma_after_roads(w: D3plotWriter, b: Seq<u8>)
    requires
        w.recoverable(),
        holds_at(b, w.wordsize as nat, 10, w.words()),
    ensures
        after_roads(b, written_header(w), roads_start(w)) == w.geometry_len(),
        w.rigid_road matches Some(r) ==> word_at(
            b,
            w.wordsize as nat,
            roads_start(w) as int + 2,
        ) == r.segments@.len(),
{
    let ws = w.wordsize as nat;
    lemma_sections(w, b);
    let r = roads_start(w);
    if let Some(rr) = w.rigid_road {
        let s = w.road_words();
        let head = seq![
            Word::Int(rr.node_ids@.len() as int),
            Word::Int(crate::d3plot::image::total_segments(rr.segments@) as int),
            Word::Int(rr.segments@.len() as int),
            Word::Int(1),
        ] + ints(rr.node_ids@) + floats(rr.node_coords@);
        assert(s == head + surfaces_words(rr.segments@));
        assert(w.rigid_error() is None);
        assert(rr.node_coords@.len() == 3 * rr.node_ids@.len());
        lemma_segments_whole(rr.segments@, 0);
        lemma_holds_split(b, ws, r as int, head, surfaces_words(rr.segments@));
        assert(s[0] == Word::Int(rr.node_ids@.len() as int));
        assert(s[2] == Word::Int(rr.segments@.len() as int));
        lemma_read_int(b, ws, r as int, s, 0);
        lemma_read_int(b, ws, r as int, s, 2);
        lemma_surfaces(b, ws, r + head.len(), rr.segments@);
    }
}

/// The walk over the geometry of a written database gives the layout.
#[verifier::rlimit(60)]
#[verifier::spinoff_prover]
proof fn lemma_walked(w: D3plotWriter, b: Seq<u8>)
    requires
        w.recoverable(),
        holds_at(b, w.wordsize as nat, 10, w.words()),
    ensures
        walked(b, written_header(w)) == w.layout(),
{
    lemma_flags(w, b);
    lemma_mesh_len(w);
    lemma_after_bodies(w, b);
    lemma_after_roads(w, b);
    let h = written_header(w);
    let a = with_airbags(b, h);
    let e = w.layout();
    let c = coords(b, h, a);
    assert(numbered(h, c) == bodies_start(w));
    assert(w.airbag_error() is None);
    assert(roads_start(w) == sph_nodes_start(w) + 2 * h.nmsph + a.n_airbags * a.n_geom_vars) by {
        if w.airbag is None {
            assert(0 * a.n_geom_vars == 0);
        }
    }
    let v = walked(b, h);
    assert(v.geom_bytes == e.geom_bytes);
    assert(v.coord_off == e.coord_off);
    assert(v.n_sph_vars == e.n_sph_vars);
    assert(v.n_rigids == e.n_rigids);
    assert(v.n_roads == e.n_roads);
}

/// Reading the control block of a written database gives the layout that its
/// writer had.
pub proof fn law_written_control(w: D3plotWriter)
    requires
        w.recoverable(),
    ensures
        control_of(w.image()) == Some(w.layout()),
{
    let b = w.image();
    lemma_image_holds(w);
    lemma_sections(w, b);
    lemma_header(w, b);
    lemma_word_size(w);
    lemma_walked(w, b);
    reveal(control_of);
}

} // verus!
