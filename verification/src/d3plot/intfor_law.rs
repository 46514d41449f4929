//! What a reader makes of a written interface-force database.

use crate::d3plot::control::{ControlView, EXTRA, NDIM};
use crate::d3plot::header::{
    control_of, coords, header_complete, header_of, numbered, wall_tail, walked, with_airbags,
    word_at, word_size_of,
};
use crate::d3plot::image::{rows, title_bytes, EOF_MARKER};
use crate::d3plot::intfor::IntforWriter;
use crate::d3plot::layout::{
    ids_match, lemma_holds_split, lemma_rows_len, lemma_wrap_range, lemma_wrap_small, small,
};
use crate::d3plot::mesh::{record_nodes, record_parts};
use crate::d3plot::mesh_law::{
    given_numbers, int_values, lemma_ints_read, lemma_numbers, lemma_splits, narrow_ints,
    splits_rows,
};
use crate::d3plot::narbs::{numbers, part_numbers};
use crate::d3plot::query::interface_span;
use crate::d3plot::reader::{family_states, file_at, index_error, places, states_in, D3plot};
use crate::d3plot::words::{
    float_at, floats, holds_at, int_fill, ints, lemma_encode_holds, lemma_encode_len,
    lemma_read_float, lemma_read_floats, lemma_read_int, stored, stored_all, Word,
};
use crate::d3plot::{InterfaceField, StateBlock};
use vstd::prelude::*;

verus! {

impl IntforWriter {
    /// Every state holds as many values as the mesh and the fields ask for.
    pub open spec fn states_match(self) -> bool {
        forall|i: int|
            0 <= i < self.states@.len() ==> {
                let st = #[trigger] self.states@[i];
                &&& st.disp@.len() == 3 * self.numnp
                &&& st.vel@.len() == 3 * self.numnp
                &&& st.seg@.len() == self.segments@.len() * self.width()
            }
    }

    /// The counts that a reader takes from the bytes come back as they were.
    pub open spec fn recoverable(self) -> bool {
        &&& self.wf()
        &&& self.countable()
        &&& self.states_match()
        &&& ids_match(self.node_ids, self.numnp as nat)
        &&& small(self.numbering().len() as int)
        &&& small(self.width() as int)
        &&& self.image().len() <= usize::MAX
        &&& self.layout().bytes_per_state() <= usize::MAX
    }

    /// Words from the start of the file to the first state.
    pub open spec fn geometry_len(self) -> nat {
        10 + self.geometry_words().len()
    }

    /// The control block before the geometry is walked.
    pub open spec fn bare_layout(self) -> ControlView {
        let plain = self.fsifor_fields == 0;
        ControlView {
            wordsize: 4,
            ndim: 4,
            numnp: self.numnp as int,
            nglbv: 0,
            it: 0,
            iu: 1,
            iv: 1,
            ia: 0,
            nel8: 0,
            nv3d: 0,
            nelth: 0,
            nv3dt: 0,
            nel2: 0,
            nv1d: 0,
            nel4: self.segments@.len(),
            nv2d: self.width(),
            narbs: self.numbering().len(),
            maxint: 0,
            neips: 0,
            ioshl1: 0,
            ioshl2: 0,
            ioshl3: 0,
            ioshl4: 0,
            idtdt: 0,
            nt3d: 0,
            n_rigid_shells: 0,
            ialemat: 0,
            npefg: 0,
            nel48: 0,
            nmsph: 0,
            geom_bytes: 0,
            coord_off: 0,
            n_sph_vars: 0,
            n_airbags: 0,
            n_particles: 0,
            n_airbag_state_vars: 0,
            n_particle_state_vars: 0,
            n_geom_vars: 0,
            n_rigids: 0,
            reduced_rigid: false,
            n_roads: 0,
            nmmat: (2 * self.n_interfaces) as nat,
            n_rigid_walls: 0,
            n_rigid_wall_vars: 0,
            extra: 0,
            filetype: 4,
            fsifor: !plain,
            nwear: if plain {
                self.nwear as nat
            } else {
                0
            },
            npresu: if plain {
                self.npresu as nat
            } else {
                0
            },
            nshear: if plain {
                self.nshear as nat
            } else {
                0
            },
            nforce: if plain {
                self.nforce as nat
            } else {
                0
            },
            ngapc: if plain {
                self.ngapc as nat
            } else {
                0
            },
        }
    }

    /// The control block of the database.
    pub open spec fn layout(self) -> ControlView {
        ControlView {
            geom_bytes: self.geometry_len() * 4,
            coord_off: 256,
            ..self.bare_layout()
        }
    }

    /// No state has a time that reads as the end marker.
    pub open spec fn times_readable(self) -> bool {
        forall|i: int|
            0 <= i < self.states@.len() ==> stored((#[trigger] self.states@[i]).time, 4)
                != EOF_MARKER
    }

    /// `d` is the database read from the bytes that this writer gives.
    pub open spec fn is_read_as(self, d: D3plot) -> bool {
        &&& d.wf()
        &&& d.files@.len() == 1
        &&& file_at(d.files@, 0) == self.image()
    }
}

/// The sections of the database stand one behind the other.
proof fn lemma_sections(w: IntforWriter)
    requires
        w.recoverable(),
    ensures
        ({
            let b = w.image();
            let n = 3 * w.numnp;
            let m = 5 * w.segments@.len();
            let ns = w.states@.len();
            &&& holds_at(b, 4, 10, w.header_words())
            &&& holds_at(b, 4, 64, floats(w.x0@))
            &&& holds_at(b, 4, 64 + n, rows(w.segments@))
            &&& holds_at(b, 4, 64 + n + m, w.narbs_words())
            &&& holds_at(b, 4, w.geometry_len() as int, w.states_words(ns))
            &&& w.geometry_len() == 64 + n + m + w.numbering().len()
            &&& b.len() == (w.geometry_len() + w.states_words(ns).len() + 1) * 4
        }),
{
    let b = w.image();
    let title = title_bytes(vstd::utf8::encode_utf8(w.title@), 40);
    let s0 = w.header_words();
    let s1 = floats(w.x0@);
    let s2 = rows(w.segments@);
    let s3 = w.narbs_words();
    let g = w.geometry_words();
    let st = w.states_words(w.states@.len());
    let end = seq![Word::Float(EOF_MARKER)];
    lemma_encode_holds(title, 4, w.words(), 10);
    lemma_encode_len(4, w.words());
    lemma_holds_split(b, 4, 10, g + st, end);
    lemma_holds_split(b, 4, 10, g, st);
    lemma_holds_split(b, 4, 10, s0 + s1 + s2, s3);
    lemma_holds_split(b, 4, 10, s0 + s1, s2);
    lemma_holds_split(b, 4, 10, s0, s1);
    lemma_rows_len(w.segments@);
    assert(w.segments@.len() == w.segments.len());
    lemma_narbs_len(w);
}

proof fn lemma_narbs_len(w: IntforWriter)
    requires
        w.recoverable(),
    ensures
        w.narbs_words().len() == w.numbering().len(),
{
    assert(w.segments@.len() == w.segments.len());
}

/// The header words are read back.
proof fn lemma_header_words(w: IntforWriter)
    requires
        w.recoverable(),
    ensures
        forall|k: int| 10 <= k < 64 ==> #[trigger] word_at(w.image(), 4, k) == w.header_word(k),
        256 <= w.image().len(),
{
    let b = w.image();
    lemma_sections(w);
    lemma_wrap_range(w.numnp as int);
    lemma_wrap_range(w.segments@.len() as int);
    lemma_wrap_range(2 * w.n_interfaces);
    lemma_wrap_small(w.width() as int);
    lemma_wrap_range(w.numbering().len() as int);
    lemma_wrap_range(w.nwear as int);
    lemma_wrap_range(w.npresu as int);
    lemma_wrap_range(w.nshear as int);
    lemma_wrap_range(w.nforce as int);
    lemma_wrap_range(w.ngapc as int);
    assert forall|k: int| 10 <= k < 64 implies #[trigger] word_at(b, 4, k) == w.header_word(k) by {
        let i = k - 10;
        assert(w.header_words()[i] == Word::Int(w.header_word(k)));
        lemma_read_int(b, 4, 10, w.header_words(), i);
    }
    lemma_read_int(b, 4, 10, w.header_words(), 53);
}

proof fn lemma_header(w: IntforWriter)
    requires
        w.recoverable(),
    ensures
        header_of(w.image(), 4) == w.bare_layout(),
        header_complete(w.image(), 4),
        word_size_of(w.image()) == Some(4nat),
{
    let b = w.image();
    lemma_header_words(w);
    assert(w.segments@.len() == w.segments.len());
    lemma_wrap_small(w.numnp as int);
    lemma_wrap_small(w.segments@.len() as int);
    lemma_wrap_small(2 * w.n_interfaces);
    lemma_wrap_small(w.width() as int);
    lemma_wrap_small(w.numbering().len() as int);
    if w.fsifor_fields == 0 {
        lemma_wrap_small(w.nwear as int);
        lemma_wrap_small(w.npresu as int);
        lemma_wrap_small(w.nshear as int);
        lemma_wrap_small(w.nforce as int);
        lemma_wrap_small(w.ngapc as int);
    }
    assert(word_at(b, 4, EXTRA as int) == 0);
    assert(word_at(b, 4, NDIM as int) == 4);
    let h = header_of(b, 4);
    let e = w.bare_layout();
    assert(wall_tail(0, e.nmmat) == 0);
    assert(h.ndim == e.ndim && h.numnp == e.numnp && h.nglbv == e.nglbv);
    assert(h.nel4 == e.nel4 && h.nv2d == e.nv2d && h.narbs == e.narbs);
    assert(h.nmmat == e.nmmat && h.fsifor == e.fsifor && h.filetype == e.filetype);
    assert(h.nwear == e.nwear && h.npresu == e.npresu && h.nshear == e.nshear && h.nforce
        == e.nforce && h.ngapc == e.ngapc);
}

/// The walk over the geometry gives the layout.
#[verifier::rlimit(40)]
#[verifier::spinoff_prover]
proof fn lemma_walked(w: IntforWriter, b: Seq<u8>)
    requires
        w.geometry_len() == 64 + 3 * w.numnp + 5 * w.segments@.len() + w.numbering().len(),
    ensures
        walked(b, w.bare_layout()) == w.layout(),
{
    let h = w.bare_layout();
    let a = with_airbags(b, h);
    assert(a == h);
    let c = coords(b, h, a);
    assert(c == 64);
    assert(numbered(h, c) == w.geometry_len());
    assert(0 * h.n_geom_vars == 0);
    let v = walked(b, h);
    let e = w.layout();
    assert(v.coord_off == e.coord_off);
    assert(v.geom_bytes == e.geom_bytes);
    assert(v.n_sph_vars == 0 && v.n_rigids == 0 && v.n_roads == 0 && !v.reduced_rigid);
}

/// Reading the control block of a written interface-force database gives the
/// layout that its writer had.
pub proof fn law_intfor_control(w: IntforWriter)
    requires
        w.recoverable(),
    ensures
        control_of(w.image()) == Some(w.layout()),
{
    lemma_header(w);
    lemma_sections(w);
    lemma_walked(w, w.image());
    reveal(control_of);
}

/// The words of one state.
proof fn lemma_state_size(w: IntforWriter)
    ensures
        w.layout().state_words() == 1 + 6 * w.numnp + w.segments@.len() * w.width(),
        w.layout().state_words() >= 1 + 6 * w.numnp,
        w.layout().bytes_per_state() == w.layout().state_words() * 4,
        w.layout().node_data_words() == 6 * w.numnp,
        w.layout().node_therm_vars() == 0,
        w.layout().block_place(StateBlock::Displacement).0 == 1,
        w.layout().block_place(StateBlock::Velocity).0 == 1 + 3 * w.numnp,
        w.layout().block_place(StateBlock::Shell) == (
            (1 + 6 * w.numnp) as nat,
            w.segments@.len(),
            w.width(),
        ),
{
    let v = w.layout();
    let n = w.numnp as nat;
    assert(v.node_vars() == 6);
    assert(0 * v.nv3d == 0 && 0 * v.nv3dt == 0 && 0 * v.nv1d == 0);
    assert(0 * v.nel8 == 0);
    assert(0 * v.n_sph_vars == 0 && 0 * v.n_airbag_state_vars == 0 && 0 * v.n_particle_state_vars
        == 0);
    assert(0 * v.rigid_vars() == 0);
    assert(0 * n == 0);
    let seg = w.segments@.len() * w.width();
    assert(seg >= 0);
    assert(v.wordsize == 4);
}

proof fn lemma_state_len(w: IntforWriter, si: int)
    requires
        w.recoverable(),
        0 <= si < w.states@.len(),
    ensures
        w.state_words(si).len() == w.layout().state_words(),
{
    lemma_state_size(w);
    assert(w.states@[si].disp@.len() == 3 * w.numnp);
}

proof fn lemma_states_len(w: IntforWriter, n: nat)
    requires
        w.recoverable(),
        n <= w.states@.len(),
    ensures
        w.states_words(n).len() == n * w.layout().state_words(),
    decreases n,
{
    let sw = w.layout().state_words();
    if n > 0 {
        lemma_states_len(w, (n - 1) as nat);
        lemma_state_len(w, n - 1);
        assert(n * sw == (n - 1) * sw + sw) by (nonlinear_arith);
    } else {
        assert(0 * sw == 0);
    }
}

proof fn lemma_state_place(w: IntforWriter, b: Seq<u8>, k: int, n: nat, si: int)
    requires
        w.recoverable(),
        0 <= si < n <= w.states@.len(),
        holds_at(b, 4, k, w.states_words(n)),
    ensures
        holds_at(b, 4, k + si * w.layout().state_words(), w.state_words(si)),
    decreases n,
{
    let m = (n - 1) as nat;
    lemma_states_len(w, m);
    lemma_holds_split(b, 4, k, w.states_words(m), w.state_words(n - 1));
    if si < n - 1 {
        lemma_state_place(w, b, k, m, si);
    }
}

/// The sizes of a written interface-force database can be addressed.
pub proof fn law_intfor_fits(w: IntforWriter)
    requires
        w.recoverable(),
    ensures
        w.layout().fits(),
        w.image().len() == w.layout().geom_bytes + w.states@.len() * w.layout().bytes_per_state()
            + 4,
        256 + 12 * w.numnp <= w.image().len(),
{
    lemma_sections(w);
    lemma_states_len(w, w.states@.len());
    assert(w.segments@.len() == w.segments.len());
    let g = w.geometry_len();
    let ns = w.states@.len();
    let sw = w.layout().state_words();
    assert((g + ns * sw + 1) * 4 == g * 4 + ns * (sw * 4) + 4) by (nonlinear_arith);
    assert(ns * (sw * 4) >= 0) by (nonlinear_arith);
}

/// The first word of state `si` is its time.
proof fn lemma_time_at(w: IntforWriter, si: int)
    requires
        w.recoverable(),
        0 <= si < w.states@.len(),
    ensures
        float_at(
            w.image(),
            w.layout().geom_bytes + si * w.layout().bytes_per_state(),
            4,
        ) == stored(w.states@[si].time, 4),
{
    let b = w.image();
    let g = w.geometry_len() as int;
    let sw = w.layout().state_words();
    lemma_sections(w);
    lemma_state_place(w, b, g, w.states@.len(), si);
    assert(w.state_words(si)[0] == Word::Float(w.states@[si].time));
    lemma_state_len(w, si);
    lemma_state_size(w);
    lemma_read_float(b, 4, g + si * sw, w.state_words(si), 0);
    assert((g + si * sw + 0) * 4 == g * 4 + si * (sw * 4)) by (nonlinear_arith);
}

proof fn lemma_states_in_image(w: IntforWriter, i: int)
    requires
        w.recoverable(),
        w.times_readable(),
        0 <= i <= w.states@.len(),
    ensures
        ({
            let v = w.layout();
            let at = v.geom_bytes + i * v.bytes_per_state();
            states_in(w.image(), at, v.bytes_per_state(), 4) == Seq::new(
                (w.states@.len() - i) as nat,
                |j: int| v.geom_bytes + (i + j) * v.bytes_per_state(),
            )
        }),
    decreases w.states@.len() - i,
{
    let v = w.layout();
    let b = w.image();
    let bps = v.bytes_per_state();
    let ns = w.states@.len();
    let at = v.geom_bytes + i * bps;
    law_intfor_fits(w);
    lemma_state_size(w);
    assert(w.numnp >= 1);
    assert(v.state_words() >= 7);
    assert(bps == v.state_words() * 4);
    assert(bps > 4);
    assert(i * bps >= 0) by (nonlinear_arith)
        requires
            i >= 0,
    ;
    let all = Seq::new((ns - i) as nat, |j: int| v.geom_bytes + (i + j) * bps);
    if i < ns {
        lemma_time_at(w, i);
        assert(stored(w.states@[i].time, 4) != EOF_MARKER);
        assert((i + 1) * bps == i * bps + bps && (i + 1) * bps <= ns * bps) by (nonlinear_arith)
            requires
                i + 1 <= ns,
        ;
        lemma_states_in_image(w, i + 1);
        let rest = states_in(b, at + bps, bps, 4);
        assert(states_in(b, at, bps, 4) == seq![at] + rest);
        assert forall|j: int| 0 <= j < all.len() implies all[j] == (seq![at] + rest)[j] by {
            if j > 0 {
                assert(rest[j - 1] == v.geom_bytes + (i + 1 + (j - 1)) * bps);
            }
        }
        assert(all =~= seq![at] + rest);
    } else {
        assert(i == ns);
        assert(all =~= Seq::<int>::empty());
    }
}

/// The family made of the one written file can be opened, and it has the states
/// that were written, one behind the other after the geometry.
pub proof fn law_intfor_states(w: IntforWriter, files: Seq<Vec<u8>>)
    requires
        w.recoverable(),
        w.times_readable(),
        files.len() == 1,
        file_at(files, 0) == w.image(),
    ensures
        index_error(file_at(files, 0)) is None,
        family_states(files, 1, w.layout()) == Seq::new(
            w.states@.len(),
            |i: int| (0int, w.layout().geom_bytes + i * w.layout().bytes_per_state()),
        ),
{
    law_intfor_control(w);
    law_intfor_fits(w);
    lemma_states_in_image(w, 0);
    let v = w.layout();
    assert(0 * v.bytes_per_state() == 0);
    reveal_with_fuel(family_states, 2);
    assert(family_states(files, 0, v) =~= Seq::<(int, int)>::empty());
    assert(family_states(files, 1, v) =~= Seq::new(
        w.states@.len(),
        |i: int| (0int, v.geom_bytes + i * v.bytes_per_state()),
    ));
}

/// The reader of an interface-force database finds its layout, the states, their
/// times and the initial coordinates.
pub proof fn law_intfor_reader_finds_states(d: D3plot, w: IntforWriter)
    requires
        w.recoverable(),
        w.times_readable(),
        w.is_read_as(d),
    ensures
        d.ctrl@ == w.layout(),
        d.states@.len() == w.states@.len(),
        forall|i: int|
            0 <= i < w.states@.len() ==> (#[trigger] d.states@[i]).file == 0 && d.states@[i].offset
                == w.layout().geom_bytes + i * w.layout().bytes_per_state(),
        forall|i: int|
            0 <= i < w.states@.len() ==> #[trigger] d.times@[i] == stored(w.states@[i].time, 4),
        d.x0@ == stored_all(w.x0@, 4),
{
    law_intfor_control(w);
    law_intfor_states(w, d.files@);
    let v = w.layout();
    let p = places(d.states@);
    assert(p == family_states(d.files@, 1, v));
    assert(p.len() == d.states@.len());
    assert forall|i: int| 0 <= i < w.states@.len() implies (#[trigger] d.states@[i]).file == 0
        && d.states@[i].offset == v.geom_bytes + i * v.bytes_per_state() by {
        assert(p[i] == (d.states@[i].file as int, d.states@[i].offset as int));
    }
    assert forall|i: int| 0 <= i < w.states@.len() implies #[trigger] d.times@[i] == stored(
        w.states@[i].time,
        4,
    ) by {
        lemma_time_at(w, i);
        assert(p[i] == (0int, v.geom_bytes + i * v.bytes_per_state()));
    }
    lemma_sections(w);
    lemma_read_floats(w.image(), 4, 64, w.x0@);
}

/// The deformed coordinates, velocities and segment values of a state come back
/// as they were written, to single precision.
#[verifier::rlimit(60)]
#[verifier::spinoff_prover]
pub proof fn law_intfor_state_reads_back(d: D3plot, w: IntforWriter, si: int)
    requires
        w.recoverable(),
        w.times_readable(),
        w.is_read_as(d),
        0 <= si < w.states@.len(),
    ensures
        ({
            let v = w.layout();
            let st = w.states@[si];
            let n = 3 * w.numnp as nat;
            let segs = v.block_place(StateBlock::Shell);
            &&& d.state_floats(si, v.block_place(StateBlock::Displacement).0, n) == stored_all(
                st.disp@,
                4,
            )
            &&& d.state_floats(si, v.block_place(StateBlock::Velocity).0, n) == stored_all(
                st.vel@,
                4,
            )
            &&& segs.1 == w.segments@.len()
            &&& segs.2 == w.width()
            &&& d.state_floats(si, segs.0, segs.1 * segs.2) == stored_all(st.seg@, 4)
        }),
{
    let b = w.image();
    let v = w.layout();
    let st = w.states@[si];
    let g = w.geometry_len() as int;
    let sw = v.state_words();
    let k = g + si * sw;
    law_intfor_reader_finds_states(d, w);
    lemma_sections(w);
    lemma_state_place(w, b, g, w.states@.len(), si);
    lemma_state_size(w);
    let s0 = seq![Word::Float(st.time)];
    let s1 = floats(st.disp@);
    let s2 = floats(st.vel@);
    let s3 = floats(st.seg@);
    lemma_holds_split(b, 4, k, s0 + s1 + s2, s3);
    lemma_holds_split(b, 4, k, s0 + s1, s2);
    lemma_holds_split(b, 4, k, s0, s1);
    let n = 3 * w.numnp as nat;
    assert(st.disp@.len() == n);
    lemma_read_floats(b, 4, k + 1, st.disp@);
    lemma_read_floats(b, 4, k + 1 + n, st.vel@);
    lemma_read_floats(b, 4, k + 1 + n + n, st.seg@);
    assert(k * 4 == g * 4 + si * (sw * 4)) by (nonlinear_arith)
        requires
            k == g + si * sw,
    ;
    assert(d.states@[si].file == 0);
}

/// The segments come back node by node, each with its id in the place of the
/// part.
pub proof fn law_intfor_segments_read_back(d: D3plot, w: IntforWriter)
    requires
        w.recoverable(),
        w.times_readable(),
        w.is_read_as(d),
    ensures
        ({
            let raw = d.raw_records(d.shells_off(), d.ctrl@.nel4, 4);
            splits_rows(
                w.segments@,
                record_nodes(raw, 4, raw.len() / 5),
                record_parts(raw, 4, raw.len() / 5),
            )
        }),
{
    law_intfor_reader_finds_states(d, w);
    lemma_sections(w);
    assert(w.segments@.len() == w.segments.len());
    let k = 64 + 3 * w.numnp;
    lemma_splits(w.image(), 4, k, w.segments@);
    assert(d.shells_off() == k * 4);
}

/// The user numbers of nodes come back as they were given, or count from one; the
/// ids of the segments stand where the reader looks for those of shells.
pub proof fn law_intfor_numbers_read_back(d: D3plot, w: IntforWriter)
    requires
        w.recoverable(),
        w.times_readable(),
        w.is_read_as(d),
    ensures
        ({
            let n = w.numnp as nat;
            let m = w.segments@.len();
            &&& d.user_numbers(0, n) == given_numbers(w.node_ids, n)
            &&& m > 0 ==> d.user_numbers(n, m) == Seq::new(m, |i: int| w.segment_ids()[i] as i64)
        }),
{
    let b = w.image();
    law_intfor_reader_finds_states(d, w);
    lemma_sections(w);
    assert(w.segments@.len() == w.segments.len());
    let n = w.numnp as nat;
    let m = w.segments@.len();
    let k = 64 + 3 * n + 5 * m;
    let nb = w.numbering();
    let h = nb.header();
    let s0 = numbers(
        match w.node_ids {
            Some(v) => Some(v@),
            None => None,
        },
        nb.nodes as nat,
    );
    let s1 = ints(w.segment_ids());
    let s2 = part_numbers(None, nb.parts as nat);
    let z = int_fill(nb.parts as nat, 0);
    assert(w.narbs_words() == h + s0 + s1 + s2 + z + z);
    lemma_holds_split(b, 4, k as int, h + s0 + s1 + s2 + z, z);
    lemma_holds_split(b, 4, k as int, h + s0 + s1 + s2, z);
    lemma_holds_split(b, 4, k as int, h + s0 + s1, s2);
    lemma_holds_split(b, 4, k as int, h + s0, s1);
    lemma_holds_split(b, 4, k as int, h, s0);
    lemma_numbers(b, 4, (k + 16) as int, w.node_ids, n);
    assert(narrow_ints(s1));
    lemma_ints_read(b, 4, (k + 16 + n) as int, s1);
    assert(int_values(s1) =~= Seq::new(m, |i: int| w.segment_ids()[i] as i64));
    lemma_read_int(b, 4, k as int, h, 0);
    assert(d.numbering_off() == k * 4);
    assert(d.numbering_header() == 16);
}

/// The fields of a segment record follow each other without gaps from its first
/// value to its last, in a file that is not of fluid-structure kind.
pub proof fn law_interface_fields_part_the_record(w: IntforWriter)
    requires
        w.fsifor_fields == 0,
    ensures
        ({
            let v = w.layout();
            let wear = interface_span(v, InterfaceField::Wear);
            let pressure = interface_span(v, InterfaceField::Pressure);
            let shear = interface_span(v, InterfaceField::Shear);
            let force = interface_span(v, InterfaceField::Force);
            let gap = interface_span(v, InterfaceField::Gap);
            &&& wear.0 == 0
            &&& pressure.0 == wear.0 + wear.1
            &&& shear.0 == pressure.0 + pressure.1
            &&& force.0 == shear.0 + shear.1
            &&& gap.0 == force.0 + force.1
            &&& gap.0 + gap.1 == v.nv2d
        }),
{
}

} // verus!
