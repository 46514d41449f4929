//! Building an interface-force database: contact segments with their values.

use crate::d3plot::control::{
    CONTROL_WORDS, FILETYPE, FILETYPE_INTFOR, ICODE, ICODE_LSDYNA, IU, IV, NARBS, NDIM,
    NDIM_STRUCTURAL, NEL4, NFORCE, NGAPC, NMMAT, NPRESU, NSHEAR, NUMMAT4, NUMNP, NV2D, NWEAR,
    TITLE_WORDS,
};
use crate::d3plot::image::{rows, title_bytes, lemma_grow, lemma_grow_none, push_rows, push_title_text, wrap_count, EOF_MARKER};
use crate::d3plot::narbs::{numbering_words, write_narbs, Numbering, UserIds};
use crate::d3plot::words::{
    encode, floats, push_word_f, push_word_fs, push_word_i, Word,
};
use crate::d3plot::writer::{narrow_ids, narrowed_ids};
use crate::d3plot::D3plotError;
use crate::le::wrap_i32;
use crate::text::{dec, push_dec};
use vstd::prelude::*;

verus! {

/// One state: its time, deformed coordinates, velocities and segment values.
pub struct IntforState {
    pub time: u64,
    pub disp: Vec<u64>,
    pub vel: Vec<u64>,
    pub seg: Vec<u64>,
}

/// Builds a single-precision interface-force database: contact segments, nodal
/// motion, and values per segment.
pub struct IntforWriter {
    pub numnp: usize,
    pub x0: Vec<u64>,
    /// Four one-based nodes and the segment id.
    pub segments: Vec<[i32; 5]>,
    pub n_interfaces: usize,
    pub nwear: usize,
    pub npresu: usize,
    pub nshear: usize,
    pub nforce: usize,
    pub ngapc: usize,
    /// Values per segment of a fluid-structure file, or 0.
    pub fsifor_fields: usize,
    pub node_ids: Option<Vec<i32>>,
    pub states: Vec<IntforState>,
    pub title: String,
}

impl IntforWriter {
    /// Values per segment.
    pub open spec fn width(self) -> nat {
        if self.fsifor_fields > 0 {
            self.fsifor_fields as nat
        } else {
            (self.nwear + self.npresu + self.nshear + self.nforce + self.ngapc) as nat
        }
    }

    /// The coordinates are those of the nodes, and there is an interface.
    pub open spec fn wf(self) -> bool {
        &&& self.numnp >= 1
        &&& self.x0@.len() == 3 * self.numnp
        &&& self.n_interfaces >= 1
    }

    /// Starts from the node coordinates, three per node, and the number of sliding
    /// interfaces, at least one.
    pub fn new(node_coords: Vec<u64>, n_interfaces: usize) -> (r: Result<Self, D3plotError>)
        ensures
            r is Ok <==> node_coords@.len() > 0 && node_coords@.len() % 3 == 0,
            r matches Err(e) ==> e.says("node_coords length must be a non-zero multiple of 3"@),
            r matches Ok(w) ==> {
                &&& w.wf()
                &&& w.x0 == node_coords
                &&& w.numnp == node_coords@.len() / 3
                &&& w.n_interfaces == (if n_interfaces == 0 {
                    1
                } else {
                    n_interfaces
                })
                &&& w.segments@.len() == 0
                &&& w.states@.len() == 0
                &&& w.width() == 0
                &&& w.fsifor_fields == 0
                &&& w.node_ids is None
                &&& w.title@.len() == 0
            },
    {
        if node_coords.len() == 0 || node_coords.len() % 3 != 0 {
            return Err(
                D3plotError::Unsupported(
                    String::from_str("node_coords length must be a non-zero multiple of 3"),
                ),
            );
        }
        let w = IntforWriter {
            numnp: node_coords.len() / 3,
            x0: node_coords,
            segments: Vec::new(),
            n_interfaces: if n_interfaces == 0 { 1 } else { n_interfaces },
            nwear: 0,
            npresu: 0,
            nshear: 0,
            nforce: 0,
            ngapc: 0,
            fsifor_fields: 0,
            node_ids: None,
            states: Vec::new(),
            title: String::new(),
        };
        Ok(w)
    }

    /// Sets the run title, of which the first forty bytes are kept.
    pub fn set_title(&mut self, title: &str)
        ensures
            final(self).title@ == title@,
            *final(self) == (IntforWriter { title: final(self).title, ..*old(self) }),
    {
        self.title = String::from_str(title);
    }

    /// User node ids for the numbering section.
    pub fn set_node_ids(&mut self, ids: Vec<i64>)
        ensures
            final(self).node_ids matches Some(v) && v@ == narrowed_ids(ids@),
            *final(self) == (IntforWriter { node_ids: final(self).node_ids, ..*old(self) }),
    {
        self.node_ids = Some(narrow_ids(&ids));
    }

    /// Adds a segment of four one-based nodes with its id.
    pub fn add_segment(&mut self, nodes: [i32; 4], id: i32)
        ensures
            final(self).segments@.len() == old(self).segments@.len() + 1,
            final(self).segments@.drop_last() == old(self).segments@,
            final(self).segments@.last()@ == nodes@.push(id),
            *final(self) == (IntforWriter { segments: final(self).segments, ..*old(self) }),
    {
        let ghost before = self.segments@;
        let row: [i32; 5] = [nodes[0], nodes[1], nodes[2], nodes[3], id];
        assert(row@ =~= nodes@.push(id));
        self.segments.push(row);
        assert(self.segments@.drop_last() =~= before);
    }

    /// Declares the fields of a segment record: wear, pressure, shear, force, gap.
    pub fn set_fields(
        &mut self,
        wear: usize,
        pressure: usize,
        shear: usize,
        force: usize,
        gap: usize,
    )
        ensures
            *final(self) == (IntforWriter {
                nwear: wear,
                npresu: pressure,
                nshear: shear,
                nforce: force,
                ngapc: gap,
                fsifor_fields: 0,
                ..*old(self)
            }),
    {
        self.nwear = wear;
        self.npresu = pressure;
        self.nshear = shear;
        self.nforce = force;
        self.ngapc = gap;
        self.fsifor_fields = 0;
    }

    /// Makes this a fluid-structure file with `n` values per segment.
    pub fn set_fsifor(&mut self, n: usize)
        ensures
            *final(self) == (IntforWriter {
                nwear: 0,
                npresu: 0,
                nshear: 0,
                nforce: 0,
                ngapc: 0,
                fsifor_fields: n,
                ..*old(self)
            }),
    {
        self.fsifor_fields = n;
        self.nwear = 0;
        self.npresu = 0;
        self.nshear = 0;
        self.nforce = 0;
        self.ngapc = 0;
    }

    /// Values per segment.
    pub fn nv2d(&self) -> (r: usize)
        requires
            self.width() <= usize::MAX,
        ensures
            r == self.width(),
    {
        if self.fsifor_fields > 0 {
            self.fsifor_fields
        } else {
            self.nwear + self.npresu + self.nshear + self.nforce + self.ngapc
        }
    }

    /// The complaint about a new state, or `None`.
    pub open spec fn state_error(self, disp: nat, vel: nat, seg: nat) -> Option<Seq<char>> {
        let n3 = 3 * self.numnp as nat;
        let need = self.segments@.len() * self.width();
        if disp != n3 || vel != n3 {
            Some("disp/vel length must be numnp*3 ("@ + dec(n3) + ")"@)
        } else if seg != need {
            Some(
                "segment_values length "@ + dec(seg) + " != n_segments*nv2d ("@ + dec(need) + ")"@,
            )
        } else {
            None
        }
    }

    /// Appends a state: its time, deformed coordinates, velocities and the values
    /// of all segments.
    pub fn add_state(
        &mut self,
        time: u64,
        disp: Vec<u64>,
        vel: Vec<u64>,
        segment_values: Vec<u64>,
    ) -> (r: Result<(), D3plotError>)
        requires
            old(self).wf(),
            old(self).width() <= usize::MAX,
            old(self).segments@.len() * old(self).width() <= usize::MAX,
        ensures
            match old(self).state_error(disp@.len(), vel@.len(), segment_values@.len()) {
                Some(m) => r matches Err(e) && e.says(m) && *final(self) == *old(self),
                None => {
                    &&& r is Ok
                    &&& final(self).states@ == old(self).states@.push(
                        IntforState { time, disp, vel, seg: segment_values },
                    )
                    &&& *final(self) == (IntforWriter { states: final(self).states, ..*old(self) })
                },
            },
    {
        let n3: usize = self.x0.len();
        let need: usize = self.segments.len() * self.nv2d();
        if disp.len() != n3 || vel.len() != n3 {
            let mut m: String = String::from_str("disp/vel length must be numnp*3 (");
            push_dec(&mut m, n3 as u64);
            m.append(")");
            return Err(D3plotError::Unsupported(m));
        }
        if segment_values.len() != need {
            let mut m: String = String::from_str("segment_values length ");
            push_dec(&mut m, segment_values.len() as u64);
            m.append(" != n_segments*nv2d (");
            push_dec(&mut m, need as u64);
            m.append(")");
            return Err(D3plotError::Unsupported(m));
        }
        self.states.push(IntforState { time, disp, vel, seg: segment_values });
        Ok(())
    }

    pub open spec fn numbering(self) -> Numbering {
        Numbering {
            nodes: self.numnp,
            solids: 0,
            beams: 0,
            shells: self.segments@.len() as usize,
            tshells: 0,
            parts: (2 * self.n_interfaces) as usize,
        }
    }

    /// Header word `k`, for `k` past the title. The materials are the surfaces, two
    /// per interface; a negative width marks a fluid-structure file.
    pub open spec fn header_word(self, k: int) -> int {
        let plain = self.fsifor_fields == 0;
        if k == FILETYPE {
            4
        } else if k == NDIM {
            4
        } else if k == NUMNP {
            wrap_i32(self.numnp as int)
        } else if k == ICODE {
            6
        } else if k == IU {
            1
        } else if k == IV {
            1
        } else if k == NEL4 {
            wrap_i32(self.segments@.len() as int)
        } else if k == NUMMAT4 {
            wrap_i32(2 * self.n_interfaces)
        } else if k == NV2D {
            if plain {
                wrap_i32(self.width() as int)
            } else {
                -wrap_i32(self.width() as int)
            }
        } else if k == NARBS {
            wrap_i32(self.numbering().len() as int)
        } else if k == NMMAT {
            wrap_i32(2 * self.n_interfaces)
        } else if k == NWEAR && plain {
            wrap_i32(self.nwear as int)
        } else if k == NPRESU && plain {
            wrap_i32(self.npresu as int)
        } else if k == NSHEAR && plain {
            wrap_i32(self.nshear as int)
        } else if k == NFORCE && plain {
            wrap_i32(self.nforce as int)
        } else if k == NGAPC && plain {
            wrap_i32(self.ngapc as int)
        } else {
            0
        }
    }

    pub open spec fn header_words(self) -> Seq<Word> {
        Seq::new(54, |i: int| Word::Int(self.header_word(i + 10)))
    }

    pub open spec fn segment_ids(self) -> Seq<i32> {
        Seq::new(self.segments@.len(), |i: int| self.segments@[i]@[4])
    }

    /// The numbering section: node ids, and the segment ids in place of shell ids.
    pub open spec fn narbs_words(self) -> Seq<Word> {
        let n = self.numbering();
        n.header() + crate::d3plot::narbs::numbers(
            match self.node_ids {
                Some(v) => Some(v@),
                None => None,
            },
            n.nodes as nat,
        ) + crate::d3plot::words::ints(self.segment_ids()) + crate::d3plot::narbs::part_numbers(
            None,
            n.parts as nat,
        ) + crate::d3plot::words::int_fill(n.parts as nat, 0) + crate::d3plot::words::int_fill(
            n.parts as nat,
            0,
        )
    }

    /// The geometry, from the header to the first state.
    pub open spec fn geometry_words(self) -> Seq<Word> {
        self.header_words() + floats(self.x0@) + rows(self.segments@) + self.narbs_words()
    }

    /// The words of state `si`.
    pub open spec fn state_words(self, si: int) -> Seq<Word> {
        let st = self.states@[si];
        seq![Word::Float(st.time)] + floats(st.disp@) + floats(st.vel@) + floats(st.seg@)
    }

    /// The words of the first `n` states.
    pub open spec fn states_words(self, n: nat) -> Seq<Word>
        decreases n,
    {
        if n == 0 {
            Seq::empty()
        } else {
            self.states_words((n - 1) as nat) + self.state_words(n - 1)
        }
    }

    /// All words after the title.
    pub open spec fn words(self) -> Seq<Word> {
        self.geometry_words() + self.states_words(self.states@.len()) + seq![
            Word::Float(EOF_MARKER),
        ]
    }

    /// The bytes of the database.
    pub open spec fn image(self) -> Seq<u8> {
        title_bytes(vstd::utf8::encode_utf8(self.title@), 40) + encode(4, self.words())
    }

    /// The counts stay within the machine's numbers and the words that hold them.
    pub open spec fn countable(self) -> bool {
        &&& self.width() <= usize::MAX
        &&& 2 * self.n_interfaces <= usize::MAX
        &&& self.numbering().fits()
        &&& self.fsifor_fields > 0 ==> wrap_i32(self.width() as int) > i32::MIN
    }

    /// The counts stay within the machine's numbers and the words that hold them.
    pub fn is_countable(&self) -> (r: bool)
        ensures
            r == self.countable(),
    {
        if self.n_interfaces > usize::MAX / 2 {
            return false;
        }
        let width: u128 = if self.fsifor_fields > 0 {
            self.fsifor_fields as u128
        } else {
            self.nwear as u128 + self.npresu as u128 + self.nshear as u128 + self.nforce as u128
                + self.ngapc as u128
        };
        if width > usize::MAX as u128 {
            return false;
        }
        let total: u128 = 1 + self.numnp as u128 + self.segments.len() as u128 + 4
            * self.n_interfaces as u128;
        total <= i32::MAX as u128 && (self.fsifor_fields == 0 || wrap_count(width as usize)
            > i32::MIN as i64)
    }

    /// Header word `k`.
    fn header_value(&self, k: usize) -> (r: i64)
        requires
            self.countable(),
        ensures
            r == self.header_word(k as int),
    {
        let plain: bool = self.fsifor_fields == 0;
        if k == FILETYPE {
            FILETYPE_INTFOR
        } else if k == NDIM {
            NDIM_STRUCTURAL
        } else if k == NUMNP {
            wrap_count(self.numnp)
        } else if k == ICODE {
            ICODE_LSDYNA
        } else if k == IU || k == IV {
            1
        } else if k == NEL4 {
            wrap_count(self.segments.len())
        } else if k == NUMMAT4 || k == NMMAT {
            wrap_count(2 * self.n_interfaces)
        } else if k == NV2D {
            if plain {
                wrap_count(self.nv2d())
            } else {
                -wrap_count(self.nv2d())
            }
        } else if k == NARBS {
            wrap_count(self.numnp + self.segments.len() + 6 * self.n_interfaces + 16)
        } else if k == NWEAR && plain {
            wrap_count(self.nwear)
        } else if k == NPRESU && plain {
            wrap_count(self.npresu)
        } else if k == NSHEAR && plain {
            wrap_count(self.nshear)
        } else if k == NFORCE && plain {
            wrap_count(self.nforce)
        } else if k == NGAPC && plain {
            wrap_count(self.ngapc)
        } else {
            0
        }
    }

    fn push_header(&self, buf: &mut Vec<u8>)
        requires
            self.countable(),
        ensures
            final(buf)@ == old(buf)@ + encode(4, self.header_words()),
    {
        let ghost start = buf@;
        let ghost all = self.header_words();
        proof {
            assert(all.take(0) =~= Seq::<Word>::empty());
            lemma_grow_none(start, 4);
        }
        for k in TITLE_WORDS..CONTROL_WORDS
            invariant
                self.countable(),
                all == self.header_words(),
                buf@ == start + encode(4, all.take(k - 10)),
        {
            let v: i64 = self.header_value(k);
            proof {
                assert(all[k - 10] == Word::Int(v as int));
                assert(all.take(k - 9) =~= all.take(k - 10) + seq![Word::Int(v as int)]);
                lemma_grow(start, 4, all.take(k - 10), seq![Word::Int(v as int)]);
            }
            push_word_i(buf, v, 4);
        }
        assert(all.take(54) =~= all);
    }

    fn push_numbering(&self, buf: &mut Vec<u8>)
        requires
            self.countable(),
        ensures
            final(buf)@ == old(buf)@ + encode(4, self.narbs_words()),
    {
        let mut ids: Vec<i32> = Vec::new();
        for i in 0..self.segments.len()
            invariant
                ids@ == self.segment_ids().take(i as int),
        {
            ids.push(self.segments[i][4]);
            assert(ids@ =~= self.segment_ids().take(i + 1));
        }
        assert(ids@ =~= self.segment_ids());
        let n: Numbering = Numbering {
            nodes: self.numnp,
            solids: 0,
            beams: 0,
            shells: self.segments.len(),
            tshells: 0,
            parts: 2 * self.n_interfaces,
        };
        let user: UserIds<'_> = UserIds {
            nodes: self.node_ids.as_ref(),
            solids: None,
            beams: None,
            shells: Some(&ids),
            tshells: None,
            parts: None,
        };
        let _words: usize = write_narbs(buf, &n, &user, 4);
        assert(numbering_words(n, user) =~= self.narbs_words());
    }

    fn push_state(&self, buf: &mut Vec<u8>, si: usize)
        requires
            si < self.states@.len(),
        ensures
            final(buf)@ == old(buf)@ + encode(4, self.state_words(si as int)),
    {
        let ghost start = buf@;
        let st: &IntforState = &self.states[si];
        push_word_f(buf, st.time, 4);
        push_word_fs(buf, st.disp.as_slice(), 4);
        push_word_fs(buf, st.vel.as_slice(), 4);
        push_word_fs(buf, st.seg.as_slice(), 4);
        proof {
            let s0 = seq![Word::Float(st.time)];
            let s1 = floats(st.disp@);
            let s2 = floats(st.vel@);
            lemma_grow(start, 4, s0, s1);
            lemma_grow(start, 4, s0 + s1, s2);
            lemma_grow(start, 4, s0 + s1 + s2, floats(st.seg@));
        }
    }

    /// The complete bytes of the database.
    pub fn to_bytes(&self) -> (r: Vec<u8>)
        requires
            self.countable(),
        ensures
            r@ == self.image(),
    {
        let mut buf: Vec<u8> = Vec::new();
        let ghost title = title_bytes(vstd::utf8::encode_utf8(self.title@), 40);
        push_title_text(&mut buf, self.title.as_str(), 40);
        assert(buf@ =~= title);
        self.push_header(&mut buf);
        push_word_fs(&mut buf, self.x0.as_slice(), 4);
        push_rows(&mut buf, &self.segments, 4);
        self.push_numbering(&mut buf);
        let ghost g = self.geometry_words();
        proof {
            let s0 = self.header_words();
            let s1 = floats(self.x0@);
            let s2 = rows(self.segments@);
            lemma_grow(title, 4, s0, s1);
            lemma_grow(title, 4, s0 + s1, s2);
            lemma_grow(title, 4, s0 + s1 + s2, self.narbs_words());
            assert(g + self.states_words(0) =~= g);
        }
        for si in 0..self.states.len()
            invariant
                g == self.geometry_words(),
                buf@ == title + encode(4, g + self.states_words(si as nat)),
        {
            self.push_state(&mut buf, si);
            proof {
                lemma_grow(
                    title,
                    4,
                    g + self.states_words(si as nat),
                    self.state_words(si as int),
                );
                assert(g + self.states_words(si as nat) + self.state_words(si as int) =~= g
                    + self.states_words((si + 1) as nat));
            }
        }
        push_word_f(&mut buf, EOF_MARKER, 4);
        proof {
            lemma_grow(title, 4, g + self.states_words(self.states@.len()), seq![
                Word::Float(EOF_MARKER),
            ]);
        }
        buf
    }
}

} // verus!
