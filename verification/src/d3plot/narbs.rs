//! The numbering section: user numbers of nodes, elements and parts.

use crate::d3plot::words::{
    encode, int_fill, ints, is_word_size, lemma_encode_add, lemma_encode_empty, push_int_fill, push_word_i,
    push_word_is, Word,
};
use vstd::prelude::*;

verus! {

/// The given numbers, or `1..=n` in their place.
pub open spec fn numbers(ids: Option<Seq<i32>>, n: nat) -> Seq<Word> {
    match ids {
        Some(v) => ints(v),
        None => Seq::new(n, |i: int| Word::Int(i + 1)),
    }
}

/// The part numbers: the given ones as far as they go, then the position.
pub open spec fn part_numbers(ids: Option<Seq<i32>>, n: nat) -> Seq<Word> {
    Seq::new(
        n,
        |i: int|
            Word::Int(
                match ids {
                    Some(v) if i < v.len() => v[i] as int,
                    _ => i + 1,
                },
            ),
    )
}

/// The sizes that the numbering section speaks of.
pub struct Numbering {
    pub nodes: usize,
    pub solids: usize,
    pub beams: usize,
    pub shells: usize,
    pub tshells: usize,
    pub parts: usize,
}

impl Numbering {
    /// The pointers of the section fit their 32-bit words.
    pub open spec fn fits(self) -> bool {
        1 + self.nodes + self.solids + self.beams + self.shells + self.tshells + 2 * self.parts
            <= i32::MAX
    }

    /// Number of words of the section, as the header states it.
    pub open spec fn len(self) -> nat {
        (self.nodes + self.solids + self.beams + self.shells + self.tshells + 3 * self.parts
            + 16) as nat
    }

    /// The 16 header words: pointers to the runs of numbers, their lengths, and
    /// the material pointers and counts. The negative first word says that there
    /// are material numbers.
    pub open spec fn header(self) -> Seq<Word> {
        let solids = 1 + self.nodes;
        let beams = solids + self.solids;
        let shells = beams + self.beams;
        let tshells = shells + self.shells;
        let unordered = tshells + self.tshells;
        let ordered = unordered + self.parts;
        let cross = ordered + self.parts;
        seq![
            Word::Int(-1),
            Word::Int(solids),
            Word::Int(beams),
            Word::Int(shells),
            Word::Int(tshells),
            Word::Int(self.nodes as int),
            Word::Int(self.solids as int),
            Word::Int(self.beams as int),
            Word::Int(self.shells as int),
            Word::Int(self.tshells as int),
            Word::Int(ordered),
            Word::Int(unordered),
            Word::Int(cross),
            Word::Int(self.parts as int),
            Word::Int(0),
            Word::Int(self.parts as int),
        ]
    }
}

/// The user numbers that were given, by family.
pub struct UserIds<'a> {
    pub nodes: Option<&'a Vec<i32>>,
    pub solids: Option<&'a Vec<i32>>,
    pub beams: Option<&'a Vec<i32>>,
    pub shells: Option<&'a Vec<i32>>,
    pub tshells: Option<&'a Vec<i32>>,
    pub parts: Option<&'a Vec<i32>>,
}

pub open spec fn seq_of(v: Option<&Vec<i32>>) -> Option<Seq<i32>> {
    match v {
        Some(x) => Some(x@),
        None => None,
    }
}

/// The numbering section: the header, then the numbers of nodes, solids, beams,
/// shells, thick shells and parts, and two empty material tables.
pub open spec fn numbering_words(n: Numbering, ids: UserIds) -> Seq<Word> {
    n.header() + numbers(seq_of(ids.nodes), n.nodes as nat) + numbers(
        seq_of(ids.solids),
        n.solids as nat,
    ) + numbers(seq_of(ids.beams), n.beams as nat) + numbers(
        seq_of(ids.shells),
        n.shells as nat,
    ) + numbers(seq_of(ids.tshells), n.tshells as nat) + part_numbers(
        seq_of(ids.parts),
        n.parts as nat,
    ) + int_fill(n.parts as nat, 0) + int_fill(n.parts as nat, 0)
}

fn push_numbers(buf: &mut Vec<u8>, ids: Option<&Vec<i32>>, n: usize, ws: usize)
    requires
        is_word_size(ws as int),
        n <= i32::MAX,
    ensures
        final(buf)@ == old(buf)@ + encode(ws as nat, numbers(seq_of(ids), n as nat)),
{
    match ids {
        Some(v) => {
            push_word_is(buf, v.as_slice(), ws);
        },
        None => {
            let ghost start = buf@;
            let ghost all = numbers(None, n as nat);
            proof {
                lemma_encode_empty(ws as nat);
                assert(all.take(0) =~= Seq::<Word>::empty());
                assert(buf@ =~= start + encode(ws as nat, all.take(0)));
            }
            for i in 0..n
                invariant
                    is_word_size(ws as int),
                    n <= i32::MAX,
                    all == numbers(None, n as nat),
                    buf@ == start + encode(ws as nat, all.take(i as int)),
            {
                proof {
                    assert(all.take(i + 1) =~= all.take(i as int) + seq![Word::Int(i + 1)]);
                    lemma_encode_add(ws as nat, all.take(i as int), seq![Word::Int(i + 1)]);
                }
                push_word_i(buf, i as i64 + 1, ws);
            }
            assert(all.take(n as int) =~= all);
        },
    }
}

fn push_part_numbers(buf: &mut Vec<u8>, ids: Option<&Vec<i32>>, n: usize, ws: usize)
    requires
        is_word_size(ws as int),
        n <= i32::MAX,
    ensures
        final(buf)@ == old(buf)@ + encode(ws as nat, part_numbers(seq_of(ids), n as nat)),
{
    let ghost start = buf@;
    let ghost all = part_numbers(seq_of(ids), n as nat);
    proof {
        lemma_encode_empty(ws as nat);
        assert(all.take(0) =~= Seq::<Word>::empty());
        assert(buf@ =~= start + encode(ws as nat, all.take(0)));
    }
    for i in 0..n
        invariant
            is_word_size(ws as int),
            n <= i32::MAX,
            all == part_numbers(seq_of(ids), n as nat),
            buf@ == start + encode(ws as nat, all.take(i as int)),
    {
        let v: i64 = match ids {
            Some(p) => if i < p.len() {
                p[i] as i64
            } else {
                i as i64 + 1
            },
            None => i as i64 + 1,
        };
        proof {
            assert(all[i as int] == Word::Int(v as int));
            assert(all.take(i + 1) =~= all.take(i as int) + seq![Word::Int(v as int)]);
            lemma_encode_add(ws as nat, all.take(i as int), seq![Word::Int(v as int)]);
        }
        push_word_i(buf, v, ws);
    }
    assert(all.take(n as int) =~= all);
}

/// Appends the section and returns its number of words as the header states it.
pub fn write_narbs(buf: &mut Vec<u8>, n: &Numbering, ids: &UserIds, ws: usize) -> (r: usize)
    requires
        is_word_size(ws as int),
        n.fits(),
    ensures
        final(buf)@ == old(buf)@ + encode(ws as nat, numbering_words(*n, *ids)),
        r == n.len(),
{
    let ghost start = buf@;
    let ghost w = ws as nat;
    let nsrh: i64 = 1 + n.nodes as i64;
    let nsrb: i64 = nsrh + n.solids as i64;
    let nsrs: i64 = nsrb + n.beams as i64;
    let nsrt: i64 = nsrs + n.shells as i64;
    let nsrmu: i64 = nsrt + n.tshells as i64;
    let nsrma: i64 = nsrmu + n.parts as i64;
    let nsrmp: i64 = nsrma + n.parts as i64;
    let head: [i32; 16] = [
        -1,
        nsrh as i32,
        nsrb as i32,
        nsrs as i32,
        nsrt as i32,
        n.nodes as i32,
        n.solids as i32,
        n.beams as i32,
        n.shells as i32,
        n.tshells as i32,
        nsrma as i32,
        nsrmu as i32,
        nsrmp as i32,
        n.parts as i32,
        0,
        n.parts as i32,
    ];
    assert(ints(head@) =~= n.header());
    push_word_is(buf, head.as_slice(), ws);
    push_numbers(buf, ids.nodes, n.nodes, ws);
    push_numbers(buf, ids.solids, n.solids, ws);
    push_numbers(buf, ids.beams, n.beams, ws);
    push_numbers(buf, ids.shells, n.shells, ws);
    push_numbers(buf, ids.tshells, n.tshells, ws);
    push_part_numbers(buf, ids.parts, n.parts, ws);
    push_int_fill(buf, n.parts, 0, ws);
    push_int_fill(buf, n.parts, 0, ws);
    proof {
        let s0 = n.header();
        let s1 = numbers(seq_of(ids.nodes), n.nodes as nat);
        let s2 = numbers(seq_of(ids.solids), n.solids as nat);
        let s3 = numbers(seq_of(ids.beams), n.beams as nat);
        let s4 = numbers(seq_of(ids.shells), n.shells as nat);
        let s5 = numbers(seq_of(ids.tshells), n.tshells as nat);
        let s6 = part_numbers(seq_of(ids.parts), n.parts as nat);
        let s7 = int_fill(n.parts as nat, 0);
        lemma_encode_add(w, s0, s1);
        lemma_encode_add(w, s0 + s1, s2);
        lemma_encode_add(w, s0 + s1 + s2, s3);
        lemma_encode_add(w, s0 + s1 + s2 + s3, s4);
        lemma_encode_add(w, s0 + s1 + s2 + s3 + s4, s5);
        lemma_encode_add(w, s0 + s1 + s2 + s3 + s4 + s5, s6);
        lemma_encode_add(w, s0 + s1 + s2 + s3 + s4 + s5 + s6, s7);
        lemma_encode_add(w, s0 + s1 + s2 + s3 + s4 + s5 + s6 + s7, s7);
        assert(buf@ =~= start + encode(w, numbering_words(*n, *ids)));
    }
    n.nodes + n.solids + n.beams + n.shells + n.tshells + 3 * n.parts + 16
}

} // verus!
