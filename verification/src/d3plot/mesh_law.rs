//! What a reader makes of the mesh of a written database.

use crate::d3plot::image::rows;
use crate::d3plot::layout::{
    lemma_holds_split, lemma_image_holds, lemma_mesh_len, lemma_parts_bound, lemma_rows_len,
    lemma_sections, lemma_vec_lens, narbs_start,
};
use crate::d3plot::mesh::{counting, record_nodes, record_parts};
use crate::d3plot::narbs::{numbers, part_numbers, seq_of};
use crate::d3plot::reader::D3plot;
use crate::d3plot::roundtrip::{law_reader_finds_states, reads, times_readable};
use crate::d3plot::words::{
    floats, holds_at, int_at, int_fill, ints, ints_at, is_word_size, lemma_read_int, Word,
};
use crate::d3plot::writer::D3plotWriter;
use vstd::prelude::*;

verus! {

/// Words that hold 32-bit integers.
pub open spec fn narrow_ints(s: Seq<Word>) -> bool {
    forall|i: int|
        0 <= i < s.len() ==> (#[trigger] s[i]) is Int && -0x8000_0000 <= s[i]->Int_0
            < 0x8000_0000
}

/// The integers in words.
pub open spec fn int_values(s: Seq<Word>) -> Seq<i64> {
    Seq::new(s.len(), |i: int| s[i]->Int_0 as i64)
}

/// Integers that a database holds are read back.
pub proof fn lemma_ints_read(b: Seq<u8>, ws: nat, k: int, s: Seq<Word>)
    requires
        is_word_size(ws as int),
        holds_at(b, ws, k, s),
        narrow_ints(s),
        0 <= k,
    ensures
        ints_at(b, k * ws, s.len(), ws) == int_values(s),
{
    let n = s.len();
    if n == 0 {
        assert(0 * ws == 0);
        assert(ints_at(b, k * ws, n, ws) =~= int_values(s));
    } else {
        lemma_read_int(b, ws, k, s, n - 1);
        assert(k * ws + n * ws == (k + (n - 1) + 1) * ws) by (nonlinear_arith);
        assert forall|i: int| 0 <= i < n implies int_at(b, k * ws + i * ws, ws) == (
        #[trigger] s[i])->Int_0 by {
            lemma_read_int(b, ws, k, s, i);
            assert(k * ws + i * ws == (k + i) * ws) by (nonlinear_arith);
        }
        assert(ints_at(b, k * ws, n, ws) =~= int_values(s));
    }
}

/// The words of rows, one by one.
pub proof fn lemma_row_words<const N: usize>(s: Seq<[i32; N]>)
    ensures
        rows(s).len() == s.len() * N,
        narrow_ints(rows(s)),
        forall|e: int, j: int|
            0 <= e < s.len() && 0 <= j < N ==> rows(s)[e * N + j] == Word::Int(
                #[trigger] s[e]@[j] as int,
            ),
    decreases s.len(),
{
    lemma_rows_len(s);
    if s.len() > 0 {
        let m = s.len() - 1;
        lemma_row_words(s.drop_last());
        assert(s.last()@.len() == N);
        assert(s.len() * N == m * N + N) by (nonlinear_arith)
            requires
                s.len() == m + 1,
        ;
        let a = rows(s.drop_last());
        let z = ints(s.last()@);
        assert(a.len() == m * N);
        assert forall|i: int| 0 <= i < rows(s).len() implies (#[trigger] rows(s)[i]) is Int
            && -0x8000_0000 <= rows(s)[i]->Int_0 < 0x8000_0000 by {
            if i < a.len() {
                assert(rows(s)[i] == a[i]);
            } else {
                assert(rows(s)[i] == z[i - a.len()]);
            }
        }
        assert forall|e: int, j: int| 0 <= e < s.len() && 0 <= j < N implies rows(s)[e * N + j]
            == Word::Int(#[trigger] s[e]@[j] as int) by {
            if e < m {
                assert(s.drop_last()[e]@[j] == s[e]@[j]);
                assert(0 <= e * N + j < m * N) by (nonlinear_arith)
                    requires
                        0 <= e < m,
                        0 <= j < N,
                ;
                assert(rows(s)[e * N + j] == a[e * N + j]);
            } else {
                assert(e == m);
                assert(rows(s)[e * N + j] == z[j]);
            }
        }
    }
}

/// The nodes of records, one by one.
proof fn lemma_record_nodes(raw: Seq<i64>, per: nat, n: nat)
    requires
        raw.len() >= n * (per + 1),
    ensures
        record_nodes(raw, per, n).len() == n * per,
        forall|e: int, j: int|
            #![trigger record_nodes(raw, per, n)[e * per + j]]
            0 <= e < n && 0 <= j < per ==> record_nodes(raw, per, n)[e * per + j] == raw[e * (per
                + 1) + j],
    decreases n,
{
    if n > 0 {
        let m = (n - 1) as nat;
        assert(n * (per + 1) == m * (per + 1) + per + 1) by (nonlinear_arith)
            requires
                n == m + 1,
        ;
        assert(n * per == m * per + per) by (nonlinear_arith)
            requires
                n == m + 1,
        ;
        lemma_record_nodes(raw, per, m);
        let a = record_nodes(raw, per, m);
        let at = m * (per + 1);
        assert forall|e: int, j: int|
            #![trigger record_nodes(raw, per, n)[e * per + j]]
            0 <= e < n && 0 <= j < per implies record_nodes(raw, per, n)[e * per + j] == raw[e * (
        per + 1) + j] by {
            if e < m {
                assert(0 <= e * per + j < m * per) by (nonlinear_arith)
                    requires
                        0 <= e < m,
                        0 <= j < per,
                ;
                assert(record_nodes(raw, per, n)[e * per + j] == a[e * per + j]);
            } else {
                assert(e == m);
                assert(record_nodes(raw, per, n)[e * per + j] == raw.subrange(
                    at as int,
                    (at + per) as int,
                )[j]);
            }
        }
    } else {
        assert(0 * per == 0);
    }
}

/// `nodes` and `parts` hold the rows of a connectivity table, whose last column is
/// the part.
pub open spec fn splits_rows<const N: usize>(
    s: Seq<[i32; N]>,
    nodes: Seq<i64>,
    parts: Seq<i64>,
) -> bool {
    &&& nodes.len() == s.len() * (N - 1)
    &&& parts.len() == s.len()
    &&& forall|e: int, j: int|
        0 <= e < s.len() && 0 <= j < N - 1 ==> nodes[e * (N - 1) + j] == #[trigger] s[e]@[j]
    &&& forall|e: int| 0 <= e < s.len() ==> parts[e] == #[trigger] s[e]@[N - 1]
}

pub proof fn lemma_splits<const N: usize>(b: Seq<u8>, ws: nat, k: int, s: Seq<[i32; N]>)
    requires
        is_word_size(ws as int),
        0 <= k,
        N >= 1,
        holds_at(b, ws, k, rows(s)),
    ensures
        ({
            let per = (N - 1) as nat;
            let raw = ints_at(b, k * ws, s.len() * (per + 1), ws);
            &&& raw.len() == s.len() * N
            &&& splits_rows(
                s,
                record_nodes(raw, per, s.len()),
                record_parts(raw, per, s.len()),
            )
        }),
{
    lemma_row_words(s);
    lemma_ints_read(b, ws, k, rows(s));
    let per = (N - 1) as nat;
    assert(per + 1 == N);
    let raw = ints_at(b, k * ws, s.len() * (per + 1), ws);
    assert(raw == int_values(rows(s)));
    lemma_record_nodes(raw, per, s.len());
    let nodes = record_nodes(raw, per, s.len());
    assert forall|e: int, j: int| 0 <= e < s.len() && 0 <= j < N - 1 implies nodes[e * (N - 1) + j]
        == #[trigger] s[e]@[j] by {
        assert(0 <= e * N + j < s.len() * N) by (nonlinear_arith)
            requires
                0 <= e < s.len(),
                0 <= j < N,
        ;
        assert(nodes[e * per + j] == raw[e * (per + 1) + j]);
    }
    let parts = record_parts(raw, per, s.len());
    assert forall|e: int| 0 <= e < s.len() implies parts[e] == #[trigger] s[e]@[N - 1] by {
        let j = N - 1;
        assert(0 <= e * N + j < s.len() * N) by (nonlinear_arith)
            requires
                0 <= e < s.len(),
                0 <= j < N,
        ;
        assert(rows(s)[e * N + j] == Word::Int(s[e]@[j] as int));
    }
}

/// The solids and shells of a database come back node by node and part by part.
#[verifier::rlimit(80)]
#[verifier::spinoff_prover]
pub proof fn law_connectivity_reads_back(d: D3plot, w: D3plotWriter)
    requires
        w.recoverable(),
        times_readable(w),
        reads(d, w),
    ensures
        ({
            let solids = d.raw_records(d.solids_off(), d.ctrl@.nel8, 8);
            let shells = d.raw_records(d.shells_off(), d.ctrl@.nel4, 4);
            &&& splits_rows(
                w.solids@,
                record_nodes(solids, 8, solids.len() / 9),
                record_parts(solids, 8, solids.len() / 9),
            )
            &&& splits_rows(
                w.shells@,
                record_nodes(shells, 4, shells.len() / 5),
                record_parts(shells, 4, shells.len() / 5),
            )
        }),
{
    let ws = w.wordsize as nat;
    let b = w.image();
    law_reader_finds_states(d, w);
    lemma_image_holds(w);
    lemma_sections(w, b);
    lemma_vec_lens(w);
    lemma_rows_len(w.solids@);
    lemma_rows_len(w.tshells@);
    lemma_rows_len(w.beams@);
    lemma_rows_len(w.shells@);
    let k = w.coord_words() as int;
    let s0 = floats(w.x0@);
    let s1 = rows(w.solids@);
    let s2 = rows(w.tshells@);
    let s3 = rows(w.beams@);
    let s4 = rows(w.shells@);
    lemma_holds_split(b, ws, k, s0 + s1 + s2 + s3, s4);
    lemma_holds_split(b, ws, k, s0 + s1 + s2, s3);
    lemma_holds_split(b, ws, k, s0 + s1, s2);
    lemma_holds_split(b, ws, k, s0, s1);
    let at = k + 3 * w.numnp;
    let m = 9 * w.solids@.len() + 9 * w.tshells@.len() + 6 * w.beams@.len();
    lemma_splits(b, ws, at, w.solids@);
    lemma_splits(b, ws, at + m, w.shells@);
    assert(d.ctrl@.coord_off == k * ws);
    assert(k * ws + 3 * w.numnp * ws == at * ws) by (nonlinear_arith)
        requires
            at == k + 3 * w.numnp,
    ;
    assert(at * ws + m * ws == (at + m) * ws) by (nonlinear_arith);
    assert(d.solids_off() == at * ws);
    assert(d.shells_off() == (at + m) * ws);
}

/// The user numbers that were given, or the positions in their place.
pub open spec fn given_numbers(ids: Option<Vec<i32>>, n: nat) -> Seq<i64> {
    match ids {
        Some(v) => Seq::new(n, |i: int| v@[i] as i64),
        None => counting(n),
    }
}

/// The part numbers that were given, as far as they go, then the positions.
pub open spec fn given_part_numbers(ids: Option<Vec<i32>>, n: nat) -> Seq<i64> {
    Seq::new(
        n,
        |i: int|
            match ids {
                Some(v) if i < v@.len() => v@[i] as i64,
                _ => (i + 1) as i64,
            },
    )
}

pub proof fn lemma_numbers(b: Seq<u8>, ws: nat, k: int, ids: Option<Vec<i32>>, n: nat)
    requires
        is_word_size(ws as int),
        0 <= k,
        n < i32::MAX,
        crate::d3plot::layout::ids_match(ids, n),
        holds_at(
            b,
            ws,
            k,
            numbers(
                match ids {
                    Some(v) => Some(v@),
                    None => None,
                },
                n,
            ),
        ),
    ensures
        ints_at(b, k * ws, n, ws) == given_numbers(ids, n),
{
    let s = numbers(
        match ids {
            Some(v) => Some(v@),
            None => None,
        },
        n,
    );
    assert(s.len() == n);
    assert(narrow_ints(s));
    lemma_ints_read(b, ws, k, s);
    assert(int_values(s) =~= given_numbers(ids, n));
}

/// User numbers of nodes, solids, shells and parts come back as they were given;
/// where none were given they count from one.
#[verifier::rlimit(80)]
#[verifier::spinoff_prover]
pub proof fn law_user_numbers_read_back(d: D3plot, w: D3plotWriter)
    requires
        w.recoverable(),
        times_readable(w),
        reads(d, w),
    ensures
        ({
            let n = w.numnp as nat;
            let solids = w.solids@.len();
            let beams = w.beams@.len();
            let shells = w.shells@.len();
            let tshells = w.tshells@.len();
            &&& d.user_numbers(0, n) == given_numbers(w.node_ids, n)
            &&& d.user_numbers(n, solids) == given_numbers(w.solid_ids, solids)
            &&& d.user_numbers(n + solids + beams, shells) == given_numbers(w.shell_ids, shells)
            &&& d.user_numbers(n + solids + beams + shells + tshells, w.n_parts())
                == given_part_numbers(w.part_ids, w.n_parts())
        }),
{
    let ws = w.wordsize as nat;
    let b = w.image();
    law_reader_finds_states(d, w);
    lemma_image_holds(w);
    lemma_sections(w, b);
    lemma_vec_lens(w);
    lemma_mesh_len(w);
    lemma_parts_bound(w);
    let v = d.ctrl@;
    let k = narbs_start(w) as int;
    let c = w.coord_words() as int;
    let nb = w.numbering();
    let ids = w.user_ids();
    let h = nb.header();
    let s0 = numbers(seq_of(ids.nodes), nb.nodes as nat);
    let s1 = numbers(seq_of(ids.solids), nb.solids as nat);
    let s2 = numbers(seq_of(ids.beams), nb.beams as nat);
    let s3 = numbers(seq_of(ids.shells), nb.shells as nat);
    let s4 = numbers(seq_of(ids.tshells), nb.tshells as nat);
    let s5 = part_numbers(seq_of(ids.parts), nb.parts as nat);
    let z = int_fill(nb.parts as nat, 0);
    assert(w.narbs_words() == h + s0 + s1 + s2 + s3 + s4 + s5 + z + z);
    lemma_holds_split(b, ws, k, h + s0 + s1 + s2 + s3 + s4 + s5 + z, z);
    lemma_holds_split(b, ws, k, h + s0 + s1 + s2 + s3 + s4 + s5, z);
    lemma_holds_split(b, ws, k, h + s0 + s1 + s2 + s3 + s4, s5);
    lemma_holds_split(b, ws, k, h + s0 + s1 + s2 + s3, s4);
    lemma_holds_split(b, ws, k, h + s0 + s1 + s2, s3);
    lemma_holds_split(b, ws, k, h + s0 + s1, s2);
    lemma_holds_split(b, ws, k, h + s0, s1);
    lemma_holds_split(b, ws, k, h, s0);
    let n = w.numnp as nat;
    let solids = w.solids@.len();
    let beams = w.beams@.len();
    let shells = w.shells@.len();
    let tshells = w.tshells@.len();
    let a1 = n + solids + beams;
    let a2 = a1 + shells + tshells;
    lemma_numbers(b, ws, k + 16, w.node_ids, n);
    lemma_numbers(b, ws, k + 16 + n, w.solid_ids, solids);
    lemma_numbers(b, ws, k + 16 + a1, w.shell_ids, shells);
    assert(narrow_ints(s5));
    lemma_ints_read(b, ws, k + 16 + a2, s5);
    assert(int_values(s5) =~= given_part_numbers(w.part_ids, w.n_parts()));
    // where the section is, and that its first word is negative
    lemma_read_int(b, ws, k, h, 0);
    let g = 3 * w.numnp as nat;
    let q = v.connectivity_words();
    assert(k == c + g + q);
    assert(c * ws + g * ws + q * ws == (c + g + q) * ws) by (nonlinear_arith);
    assert(d.numbering_off() == k * ws);
    assert(d.numbering_header() == 16);
    assert(k * ws + (16 + 0) * ws == (k + 16) * ws) by (nonlinear_arith);
    assert(k * ws + (16 + n) * ws == (k + 16 + n) * ws) by (nonlinear_arith);
    assert(k * ws + (16 + a1) * ws == (k + 16 + a1) * ws) by (nonlinear_arith);
    assert(k * ws + (16 + a2) * ws == (k + 16 + a2) * ws) by (nonlinear_arith);
    assert(given_numbers(w.node_ids, 0) =~= counting(0));
    assert(given_numbers(w.solid_ids, 0) =~= counting(0));
    assert(given_numbers(w.shell_ids, 0) =~= counting(0));
    assert(given_part_numbers(w.part_ids, 0) =~= counting(0));
}

} // verus!
