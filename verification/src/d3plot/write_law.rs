//! What is handed to a writer is what a reader of the file answers with.

use crate::d3plot::block::ResultBlock;
use crate::d3plot::image::of_state;
use crate::d3plot::reader::D3plot;
use crate::d3plot::recovery::{
    law_element_deletion_reads_back, law_global_reads_back, law_node_field_reads_back,
    law_part_field_reads_back,
};
use crate::d3plot::roundtrip::{
    law_element_results_read_back, law_reader_finds_states, lemma_state_sections, reads,
    times_readable,
};
use crate::d3plot::state_law::{law_global_history, law_node_field, law_part_history};
use crate::d3plot::validate::law_valid_is_complete;
use crate::d3plot::words::{float_at, lemma_read_float, stored, stored_all, Word};
use crate::d3plot::writer::{
    sets_global, with_element_deletion, with_node_field, with_part_field, with_results,
    D3plotWriter, Deletion,
};
use crate::d3plot::{GlobalField, NodeField, PartField, StateBlock};
use vstd::prelude::*;

verus! {

/// Word `k` of state `s` as it stands in the written bytes.
pub open spec fn written_word(w: D3plotWriter, s: int, k: int) -> u64 {
    let v = w.layout();
    float_at(
        w.image(),
        v.geom_bytes + s * v.bytes_per_state() + k * w.wordsize,
        w.wordsize as nat,
    )
}

/// The file holds `x` in word `k` of state `s`, to the precision of its words.
pub open spec fn is_written(w: D3plotWriter, s: int, k: int, x: u64) -> bool {
    &&& w.state_words(s)[k] == Word::Float(x)
    &&& written_word(w, s, k) == stored(x, w.wordsize as nat)
}

proof fn lemma_scalar_words(w: D3plotWriter, s: int, k: int)
    requires
        w.globals.some(),
        1 <= k <= 6,
    ensures
        w.state_words(s)[k] == w.scalar_words(s)[k - 1],
        w.global_words(s)[k - 1] == w.scalar_words(s)[k - 1],
        w.global_words(s).len() >= 6,
{
    let t = seq![Word::Float(w.states@[s].time)];
    let g = w.global_words(s);
    let n = w.node_words(s);
    let e = w.element_words(s);
    let x = w.deletion_state_words(s);
    let p = w.sph_state_words(s);
    let a = w.airbag_state_words(s);
    let r = w.road_state_words(s);
    assert(g[k - 1] == w.scalar_words(s)[k - 1]);
    assert((t + g)[k] == g[k - 1]);
    assert((t + g + n)[k] == (t + g)[k]);
    assert((t + g + n + e)[k] == (t + g + n)[k]);
    assert((t + g + n + e + x)[k] == (t + g + n + e)[k]);
    assert((t + g + n + e + x + p)[k] == (t + g + n + e + x)[k]);
    assert((t + g + n + e + x + p + a)[k] == (t + g + n + e + x + p)[k]);
    assert((t + g + n + e + x + p + a + r)[k] == (t + g + n + e + x + p + a)[k]);
}

proof fn lemma_scalar_is_written(w: D3plotWriter, s: int, k: int, x: u64)
    requires
        w.recoverable(),
        0 <= s < w.n_states(),
        w.globals.some(),
        1 <= k <= 6,
        w.scalar_words(s)[k - 1] == Word::Float(x),
    ensures
        is_written(w, s, k, x),
{
    lemma_scalar_words(w, s, k);
    lemma_state_sections(w, s);
    let ws = w.wordsize as nat;
    let sw = w.layout().state_words();
    let at = w.geometry_len() + s * sw + 1;
    lemma_read_float(w.image(), ws, at, w.global_words(s), k - 1);
    let gl = w.geometry_len() as int;
    assert((at + (k - 1)) * ws == gl * ws + s * (sw * ws) + k * ws) by (nonlinear_arith)
        requires
            at == gl + s * sw + 1,
    ;
}

/// A whole-model scalar is written to its word of each state: the kinetic energy to
/// word 1, the internal energy to word 2, the total energy to word 3 and the velocities
/// in x, y and z to words 4, 5 and 6.
pub proof fn law_scalar_is_written(
    a: D3plotWriter,
    w: D3plotWriter,
    field: GlobalField,
    data: Vec<u64>,
    s: int,
)
    requires
        a.globals.scalars@.len() == 6,
        sets_global(a, w, field, data),
        w.recoverable(),
        0 <= s < w.n_states(),
    ensures
        field is KineticEnergy ==> is_written(w, s, 1, data@[s]),
        field is InternalEnergy ==> is_written(w, s, 2, data@[s]),
        field is TotalEnergy ==> is_written(w, s, 3, data@[s]),
        field is VelocityX ==> is_written(w, s, 4, data@[s]),
        field is VelocityY ==> is_written(w, s, 5, data@[s]),
        field is VelocityZ ==> is_written(w, s, 6, data@[s]),
{
    let k: int = match field {
        GlobalField::KineticEnergy => 1,
        GlobalField::InternalEnergy => 2,
        GlobalField::TotalEnergy => 3,
        GlobalField::VelocityX => 4,
        GlobalField::VelocityY => 5,
        GlobalField::VelocityZ => 6,
    };
    assert(w.globals.scalars@[k - 1] == Some(data));
    assert(w.globals.some_scalar());
    lemma_scalar_is_written(w, s, k, data@[s]);
}

/// Setting a scalar leaves the words of the others as they were.
pub proof fn law_other_scalars_stay(
    a: D3plotWriter,
    w: D3plotWriter,
    field: GlobalField,
    data: Vec<u64>,
    s: int,
    k: int,
)
    requires
        a.globals.scalars@.len() == 6,
        a.globals.some(),
        sets_global(a, w, field, data),
        1 <= k <= 6,
        field is KineticEnergy ==> k != 1,
        field is InternalEnergy ==> k != 2,
        field is TotalEnergy ==> k != 3,
        field is VelocityX ==> k != 4,
        field is VelocityY ==> k != 5,
        field is VelocityZ ==> k != 6,
    ensures
        w.state_words(s)[k] == a.state_words(s)[k],
{
    let i = crate::d3plot::writer::global_slot(field);
    assert(w.globals.scalars@[i] == Some(data));
    assert(w.globals.some_scalar());
    lemma_scalar_words(a, s, k);
    lemma_scalar_words(w, s, k);
}

/// The history of a scalar that was set is the answer to asking for it.
pub proof fn law_scalar_comes_back(
    a: D3plotWriter,
    w: D3plotWriter,
    d: D3plot,
    field: GlobalField,
    data: Vec<u64>,
    r: Option<Vec<u64>>,
    s: int,
)
    requires
        a.globals.scalars@.len() == 6,
        sets_global(a, w, field, data),
        w.recoverable(),
        times_readable(w),
        reads(d, w),
        d.is_global_history(field, r),
        0 <= s < w.n_states(),
    ensures
        r is Some,
        (r->0)@.len() == w.n_states(),
        (r->0)@[s] == stored(data@[s], w.wordsize as nat),
{
    law_reader_finds_states(d, w);
    law_global_history(d, field, r, s);
    let i = crate::d3plot::writer::global_slot(field);
    assert(w.globals.scalars@.len() == 6);
    assert(w.globals.scalars@[i] == Some(data));
    assert(w.globals.some_scalar());
    law_global_reads_back(d, w, field, s);
    assert(d.state_floats(s, (1 + i) as nat, 1)[0] == stored(data@[s], w.wordsize as nat));
    assert(0 * w.wordsize == 0);
}

/// The history of a part scalar that was set is the answer to asking for it.
pub proof fn law_part_field_comes_back(
    a: D3plotWriter,
    d: D3plot,
    field: PartField,
    data: Vec<u64>,
    r: Option<ResultBlock>,
    s: int,
    p: int,
)
    requires
        with_part_field(a, field, data).recoverable(),
        times_readable(with_part_field(a, field, data)),
        reads(d, with_part_field(a, field, data)),
        d.is_part_field_history(field, r),
        0 <= s < a.n_states(),
        0 <= p < a.n_parts(),
    ensures
        ({
            let n = a.n_parts();
            &&& r matches Some(b)
            &&& b.dims@ == seq![a.n_states() as usize, n as usize]
            &&& b.data@[s * n + p] == stored(data@[s * n + p], a.wordsize as nat)
        }),
{
    let w = with_part_field(a, field, data);
    let n = a.n_parts();
    assert(w.n_parts() == n);
    law_valid_is_complete(w);
    law_reader_finds_states(d, w);
    law_part_field_reads_back(d, w, field, s);
    law_part_history(d, field, r, s, p);
    assert(0 <= s * n && (s + 1) * n == s * n + n && (s + 1) * n <= a.n_states() * n)
        by (nonlinear_arith)
        requires
            0 <= s < a.n_states(),
    ;
    assert(of_state(data@, s, n)[p] == data@[s * n + p]);
    let k: nat = match field {
        PartField::InternalEnergy => 7,
        PartField::KineticEnergy => 7 + n,
        PartField::Mass => 7 + 5 * n,
        PartField::HourglassEnergy => 7 + 6 * n,
    };
    let ws = d.ctrl@.wordsize as int;
    assert((k + p) * ws == k * ws + p * ws) by (nonlinear_arith);
    assert(d.state_floats(s, k, n)[p] == stored(data@[s * n + p], a.wordsize as nat));
}

/// An auxiliary node field that was set is the answer to asking for it.
pub proof fn law_node_field_comes_back(
    a: D3plotWriter,
    d: D3plot,
    field: NodeField,
    data: Vec<u64>,
    r: Option<ResultBlock>,
    s: usize,
)
    requires
        with_node_field(a, field, data).recoverable(),
        times_readable(with_node_field(a, field, data)),
        reads(d, with_node_field(a, field, data)),
        d.is_node_field(field, s, r),
        0 <= s < a.n_states(),
    ensures
        ({
            &&& r matches Some(b)
            &&& b.dims@.len() == 2
            &&& b.dims@[0] == a.numnp
            &&& b.data@ == stored_all(
                data@.subrange(
                    s * (b.dims@[1] * a.numnp),
                    (s + 1) * (b.dims@[1] * a.numnp),
                ),
                a.wordsize as nat,
            )
        }),
{
    let w = with_node_field(a, field, data);
    law_reader_finds_states(d, w);
    law_node_field_reads_back(d, w, field, s as int);
    law_node_field(d, field, s, r);
}

/// Deletion flags that were set are the answer to asking for them.
pub proof fn law_element_deletion_comes_back(
    a: D3plotWriter,
    w: D3plotWriter,
    d: D3plot,
    block: StateBlock,
    data: Vec<u64>,
    r: Option<Vec<u64>>,
    s: usize,
)
    requires
        w == (D3plotWriter { deletion: with_element_deletion(a.deletion, block, data), ..a }),
        block is Solid || block is ThickShell || block is Shell || block is Beam,
        w.recoverable(),
        times_readable(w),
        reads(d, w),
        d.is_element_alive(block, s, r),
        0 <= s < a.n_states(),
    ensures
        ({
            let n: int = match block {
                StateBlock::Solid => a.solids@.len() as int,
                StateBlock::ThickShell => a.tshells@.len() as int,
                StateBlock::Shell => a.shells@.len() as int,
                _ => a.beams@.len() as int,
            };
            &&& r is Some <==> n > 0
            &&& r matches Some(f) ==> f@ == stored_all(
                data@.subrange(s * n, (s + 1) * n),
                a.wordsize as nat,
            )
        }),
{
    law_reader_finds_states(d, w);
    law_element_deletion_reads_back(d, w, block, s as int);
}

/// The flags of the other families are kept.
pub proof fn law_element_deletion_apart(
    d: Option<Deletion>,
    b: StateBlock,
    x: Vec<u64>,
    c: StateBlock,
    y: Vec<u64>,
)
    requires
        b is Solid || b is ThickShell || b is Shell || b is Beam,
        c is Solid || c is ThickShell || c is Shell || c is Beam,
    ensures
        b == c ==> with_element_deletion(with_element_deletion(d, b, x), c, y)
            == with_element_deletion(d, c, y),
        b != c ==> with_element_deletion(with_element_deletion(d, b, x), c, y)
            == with_element_deletion(with_element_deletion(d, c, y), b, x),
{
}

/// Results that were set for a family of elements are the answer to asking for them, with
/// a row for each element of each state.
pub proof fn law_results_come_back(
    a: D3plotWriter,
    d: D3plot,
    family: StateBlock,
    block: ResultBlock,
    b: ResultBlock,
)
    requires
        family is Solid || family is ThickShell || family is Beam || family is Shell,
        with_results(a, family, block).recoverable(),
        times_readable(with_results(a, family, block)),
        reads(d, with_results(a, family, block)),
        block.dims@.len() > 0,
        d.is_labelled_block(b, family, d.every_state()),
    ensures
        b.data@ == stored_all(block.data@, a.wordsize as nat),
        b.dims@.len() == 3,
        b.dims@[0] == a.n_states(),
        family is Solid ==> b.dims@[1] == a.solids@.len(),
        family is ThickShell ==> b.dims@[1] == a.tshells@.len(),
        family is Beam ==> b.dims@[1] == a.beams@.len(),
        family is Shell ==> b.dims@[1] == a.shells@.len(),
        b.dims@[2] == block.dims@.last(),
{
    let w = with_results(a, family, block);
    law_reader_finds_states(d, w);
    law_element_results_read_back(d, w, family);
    assert(d.states@.len() == d.states.len());
    if w.n_states() > 0 {
        crate::d3plot::roundtrip::law_element_state_reads_back(d, w, family, 0);
    }
}

} // verus!
