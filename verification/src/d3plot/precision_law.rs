//! A database in double precision, and the same database in single precision.

use crate::d3plot::image::rows;
use crate::d3plot::layout::{lemma_header_range, lemma_image_holds, lemma_parts_bound};
use crate::d3plot::mesh_law::lemma_row_words;
use crate::d3plot::narbs::{numbers, part_numbers, seq_of};
use crate::d3plot::words::{
    float_at, floats, int_at, int_fill, lemma_read_float, lemma_read_int, stored, Word,
};
use crate::d3plot::writer::D3plotWriter;
use crate::le::{signed, wrap_to};
use vstd::prelude::*;

verus! {

/// `d` is `w` in double precision.
pub open spec fn doubled(w: D3plotWriter, d: D3plotWriter) -> bool {
    &&& w.wordsize == 4
    &&& d == (D3plotWriter { wordsize: 8, ..w })
}

/// The words of a state do not depend on the precision.
#[verifier::rlimit(60)]
#[verifier::spinoff_prover]
proof fn lemma_state_words_same(w: D3plotWriter, d: D3plotWriter, si: int)
    requires
        doubled(w, d),
    ensures
        d.state_words(si) == w.state_words(si),
{
    assert(d.scalar_words(si) =~= w.scalar_words(si));
    assert(d.part_words(si) == w.part_words(si));
    assert(d.wall_state_words(si) == w.wall_state_words(si));
    assert(d.global_words(si) == w.global_words(si));
    assert(d.thermal_words(si) == w.thermal_words(si));
    assert(d.node_words(si) == w.node_words(si));
    assert(d.element_words(si) == w.element_words(si));
    assert(d.deletion_state_words(si) == w.deletion_state_words(si));
    assert(d.sph_state_words(si) == w.sph_state_words(si));
    assert(d.airbag_state_words(si) == w.airbag_state_words(si));
    assert(d.road_state_words(si) == w.road_state_words(si));
    assert(d.body_state_words(si) == w.body_state_words(si));
}

proof fn lemma_states_words_same(w: D3plotWriter, d: D3plotWriter, n: nat)
    requires
        doubled(w, d),
    ensures
        d.states_words(n) == w.states_words(n),
    decreases n,
{
    if n > 0 {
        lemma_states_words_same(w, d, (n - 1) as nat);
        lemma_state_words_same(w, d, n - 1);
    }
}

/// The words do not depend on the precision.
#[verifier::rlimit(60)]
#[verifier::spinoff_prover]
proof fn lemma_words_same(w: D3plotWriter, d: D3plotWriter)
    requires
        doubled(w, d),
    ensures
        d.words() == w.words(),
{
    lemma_states_words_same(w, d, w.n_states());
    assert forall|k: int| #[trigger] d.header_word(k) == w.header_word(k) by {}
    assert(d.header_words() =~= w.header_words());
    assert(d.sph_flag_words() == w.sph_flag_words());
    assert(d.airbag_flag_words() == w.airbag_flag_words());
    assert(d.mesh_words() == w.mesh_words());
    assert(d.numbering() == w.numbering());
    assert(d.narbs_words() == w.narbs_words());
    assert(d.rigid_body_words() == w.rigid_body_words());
    assert(d.sph_node_words() == w.sph_node_words());
    assert(d.airbag_geometry_words() == w.airbag_geometry_words());
    assert(d.road_words() == w.road_words());
}

/// Word `k` behind the title is a header word, or one of the mesh or of the numbering
/// section.
pub open spec fn in_mesh(w: D3plotWriter, k: int) -> bool {
    let c = 54 + w.sph_flag_words().len() + w.airbag_flag_words().len();
    0 <= k < 54 || c <= k < c + w.mesh_words().len() + w.narbs_words().len()
}

/// Integers of 32 bits, and floating-point words.
pub open spec fn narrow(s: Seq<Word>) -> bool {
    forall|i: int|
        0 <= i < s.len() ==> ((#[trigger] s[i]) matches Word::Int(v) ==> -0x8000_0000 <= v
            < 0x8000_0000)
}

proof fn lemma_narrow_add(s: Seq<Word>, t: Seq<Word>)
    requires
        narrow(s),
        narrow(t),
    ensures
        narrow(s + t),
{
    assert forall|i: int| 0 <= i < (s + t).len() implies ((#[trigger] (s + t)[i]) matches Word::Int(
        v,
    ) ==> -0x8000_0000 <= v < 0x8000_0000) by {
        if i < s.len() {
            assert((s + t)[i] == s[i]);
        } else {
            assert((s + t)[i] == t[i - s.len()]);
        }
    }
}

proof fn lemma_narrow_mesh(w: D3plotWriter)
    requires
        w.countable(),
    ensures
        narrow(w.header_words()),
        narrow(w.mesh_words()),
        narrow(w.narbs_words()),
{
    assert forall|i: int| 0 <= i < 54 implies ((#[trigger] w.header_words()[i]) matches Word::Int(v)
        ==> -0x8000_0000 <= v < 0x8000_0000) by {
        lemma_header_range(w, i + 10);
    }
    let f = floats(w.x0@);
    lemma_row_words(w.solids@);
    lemma_row_words(w.tshells@);
    lemma_row_words(w.beams@);
    lemma_row_words(w.shells@);
    let a = rows(w.solids@);
    let b = rows(w.tshells@);
    let c = rows(w.beams@);
    let e = rows(w.shells@);
    lemma_narrow_add(f, a);
    lemma_narrow_add(f + a, b);
    lemma_narrow_add(f + a + b, c);
    lemma_narrow_add(f + a + b + c, e);
    lemma_parts_bound(w);
    assert(w.solids@.len() == w.solids.len());
    assert(w.beams@.len() == w.beams.len());
    assert(w.shells@.len() == w.shells.len());
    assert(w.tshells@.len() == w.tshells.len());
    let n = w.numbering();
    let ids = w.user_ids();
    let h = n.header();
    let s0 = numbers(seq_of(ids.nodes), n.nodes as nat);
    let s1 = numbers(seq_of(ids.solids), n.solids as nat);
    let s2 = numbers(seq_of(ids.beams), n.beams as nat);
    let s3 = numbers(seq_of(ids.shells), n.shells as nat);
    let s4 = numbers(seq_of(ids.tshells), n.tshells as nat);
    let s5 = part_numbers(seq_of(ids.parts), n.parts as nat);
    let z = int_fill(n.parts as nat, 0);
    assert(narrow(h));
    lemma_narrow_add(h, s0);
    lemma_narrow_add(h + s0, s1);
    lemma_narrow_add(h + s0 + s1, s2);
    lemma_narrow_add(h + s0 + s1 + s2, s3);
    lemma_narrow_add(h + s0 + s1 + s2 + s3, s4);
    lemma_narrow_add(h + s0 + s1 + s2 + s3 + s4, s5);
    lemma_narrow_add(h + s0 + s1 + s2 + s3 + s4 + s5, z);
    lemma_narrow_add(h + s0 + s1 + s2 + s3 + s4 + s5 + z, z);
}

/// A word of the header, the mesh or the numbering section stands there.
proof fn lemma_in_mesh(w: D3plotWriter, k: int)
    requires
        w.countable(),
        in_mesh(w, k),
    ensures
        0 <= k < w.words().len(),
        w.words()[k] matches Word::Int(v) ==> -0x8000_0000 <= v < 0x8000_0000,
{
    lemma_narrow_mesh(w);
    let s0 = w.header_words();
    let s1 = w.sph_flag_words();
    let s2 = w.airbag_flag_words();
    let s3 = w.mesh_words();
    let s4 = w.narbs_words();
    let c = 54 + s1.len() + s2.len();
    if k < 54 {
        assert(w.words()[k] == s0[k]);
    } else if k < c + s3.len() {
        assert(w.words()[k] == s3[k - c]);
    } else {
        assert(w.words()[k] == s4[k - c - s3.len()]);
    }
}

/// A database in double precision is the one in single precision word by word, and
/// twice as long. An integer of the single one is that of the double one wrapped into
/// 32 bits, and is the same where it fits, as all of the header, the connectivity and
/// the user numbers do where the counts fit. A floating-point word of the double one is the value as it was
/// given; that of the single one is the nearest single.
pub proof fn law_precision_widens(w: D3plotWriter, d: D3plotWriter, k: int)
    requires
        doubled(w, d),
        0 <= k < w.words().len(),
    ensures
        d.image().len() == 2 * w.image().len(),
        d.words() == w.words(),
        ({
            let single = int_at(w.image(), (10 + k) * 4, 4);
            let double = int_at(d.image(), (10 + k) * 8, 8);
            match w.words()[k] {
                Word::Int(v) => {
                    &&& single == signed(wrap_to(v, 4), 4)
                    &&& double == signed(wrap_to(v, 8), 8)
                    &&& -0x8000_0000 <= v < 0x8000_0000 ==> single == v && double == v
                    &&& w.countable() && in_mesh(w, k) ==> single == v && double == v
                },
                Word::Float(x) => {
                    &&& float_at(d.image(), (10 + k) * 8, 8) == x
                    &&& float_at(w.image(), (10 + k) * 4, 4) == stored(x, 4)
                },
            }
        }),
{
    lemma_words_same(w, d);
    lemma_states_words_same(w, d, w.n_states());
    lemma_image_holds(w);
    lemma_image_holds(d);
    assert(w.words().len() == w.geometry_words().len() + w.states_words(w.n_states()).len() + 1);
    assert(d.words().len() == d.geometry_words().len() + d.states_words(d.n_states()).len() + 1);
    if w.countable() && in_mesh(w, k) {
        lemma_in_mesh(w, k);
    }
    match w.words()[k] {
        Word::Int(v) => {
            lemma_read_int(w.image(), 4, 10, w.words(), k);
            lemma_read_int(d.image(), 8, 10, d.words(), k);
        },
        Word::Float(x) => {
            lemma_read_float(w.image(), 4, 10, w.words(), k);
            lemma_read_float(d.image(), 8, 10, d.words(), k);
        },
    }
}

} // verus!
