//! Connectivity, user numbers and part titles of a database.

use crate::d3plot::control::lemma_state_terms;
use crate::d3plot::header::count;
use crate::d3plot::image::EOF_MARKER;
use crate::d3plot::reader::{file_at, D3plot};
use crate::d3plot::words::{
    float_at, int_at, ints_at, is_word_size, read_float_at, read_int_at, read_ints_at,
};
use crate::text::{decode_lossy, text_of, trim_text, trimmed};
use vstd::prelude::*;
use vstd::slice::slice_subrange;

verus! {

/// The node numbers of the first `n` connectivity records of `per` nodes and a
/// part.
pub open spec fn record_nodes(raw: Seq<i64>, per: nat, n: nat) -> Seq<i64>
    decreases n,
{
    if n == 0 {
        Seq::empty()
    } else {
        let at = (n - 1) * (per + 1);
        record_nodes(raw, per, (n - 1) as nat) + raw.subrange(at, at + per)
    }
}

/// The parts of the first `n` connectivity records.
pub open spec fn record_parts(raw: Seq<i64>, per: nat, n: nat) -> Seq<i64> {
    Seq::new(n, |i: int| raw[i * (per + 1) + per])
}

/// `1..=n`.
pub open spec fn counting(n: nat) -> Seq<i64> {
    Seq::new(n, |i: int| (i + 1) as i64)
}

fn count_up(n: usize) -> (r: Vec<i64>)
    requires
        n <= i64::MAX,
    ensures
        r@ == counting(n as nat),
{
    let mut out: Vec<i64> = Vec::new();
    for i in 0..n
        invariant
            n <= i64::MAX,
            out@.len() == i,
            forall|k: int| 0 <= k < i ==> out@[k] == (k + 1) as i64,
    {
        out.push(i as i64 + 1);
    }
    assert(out@ =~= counting(n as nat));
    out
}

/// What a title section says: the type of the entry at byte `pos`.
pub open spec fn title_type(b: Seq<u8>, pos: int, ws: nat) -> int {
    int_at(b, pos, ws)
}

/// The title of the entry at `pos`: the 72 bytes after its id, or nothing when
/// the bytes end before them.
pub open spec fn title_at(b: Seq<u8>, pos: int, ws: nat) -> Seq<u8> {
    if pos + ws + 72 <= b.len() {
        b.subrange(pos + ws, pos + ws + 72)
    } else {
        Seq::empty()
    }
}

/// The ids and titles of `n` entries from byte `pos` on.
pub open spec fn entries_at(b: Seq<u8>, pos: int, n: nat, ws: nat) -> Seq<(i64, Seq<char>)>
    decreases n,
{
    if n == 0 {
        Seq::empty()
    } else {
        seq![
            (int_at(b, pos, ws) as i64, trimmed(text_of(title_at(b, pos, ws)))),
        ] + entries_at(b, pos + ws + 72, (n - 1) as nat, ws)
    }
}

/// The part titles in the title section from byte `pos` on. The section is a run
/// of titles (type 90000), of tables of part (90001) or contact (90002, 90020)
/// titles, and of keyword lines (90100), ended by any other word.
pub open spec fn titles_from(b: Seq<u8>, pos: int, ws: nat) -> Seq<(i64, Seq<char>)>
    decreases
            (if pos <= b.len() {
                b.len() - pos + 1
            } else {
                0
            }),
{
    let t = title_type(b, pos, ws);
    let n = count(int_at(b, pos + ws, ws));
    if ws == 0 || pos < 0 || pos > b.len() {
        Seq::empty()
    } else if t == 90000 {
        titles_from(b, pos + ws + 72, ws)
    } else if t == 90001 || t == 90002 || t == 90020 {
        let rest = titles_from(b, pos + 2 * ws + n * (ws + 72), ws);
        if t == 90001 {
            entries_at(b, pos + 2 * ws, n, ws) + rest
        } else {
            rest
        }
    } else if t == 90100 {
        titles_from(b, pos + 2 * ws + n * 80, ws)
    } else {
        Seq::empty()
    }
}

/// The text forms of titles.
pub open spec fn title_views(s: Seq<(i64, String)>) -> Seq<(i64, Seq<char>)> {
    Seq::new(s.len(), |i: int| (s[i].0, s[i].1@))
}

/// Positions past the end all read alike.
proof fn lemma_past_end(b: Seq<u8>, p: int, q: int, ws: nat)
    requires
        b.len() <= p,
        b.len() <= q,
        is_word_size(ws as int),
    ensures
        titles_from(b, p, ws) == titles_from(b, q, ws),
        titles_from(b, p, ws) == Seq::<(i64, Seq<char>)>::empty(),
{
}

proof fn lemma_entries_past_end(b: Seq<u8>, p: int, q: int, n: nat, ws: nat)
    requires
        b.len() <= p,
        b.len() <= q,
        is_word_size(ws as int),
    ensures
        entries_at(b, p, n, ws) == entries_at(b, q, n, ws),
    decreases n,
{
    if n > 0 {
        lemma_entries_past_end(b, p + ws + 72, q + ws + 72, (n - 1) as nat, ws);
    }
}

/// `a + b`, held to `limit`.
fn clamp_sum(a: usize, b: usize, limit: usize) -> (r: usize)
    requires
        a <= limit,
    ensures
        r == (if a + b <= limit {
            a + b
        } else {
            limit as int
        }),
{
    if b <= limit - a {
        a + b
    } else {
        limit
    }
}

/// `n * k` held to `limit`.
fn clamp_product(n: usize, k: usize, limit: usize) -> (r: usize)
    requires
        0 < k,
    ensures
        r == (if n * k <= limit {
            n * k
        } else {
            limit as int
        }),
{
    if n <= limit / k {
        assert(n * k <= limit) by (nonlinear_arith)
            requires
                n <= limit / k,
                k > 0,
        ;
        n * k
    } else {
        assert(n * k > limit) by (nonlinear_arith)
            requires
                n > limit / k,
                k > 0,
        ;
        limit
    }
}

/// Reads the entries from byte `pos` on, where `pos` past the end stands for any
/// such position.
fn read_entries(b: &[u8], start: usize, n: u64, ws: u64, out: &mut Vec<(i64, String)>)
    requires
        is_word_size(ws as int),
        start <= b@.len(),
    ensures
        title_views(final(out)@) == title_views(old(out)@) + entries_at(
            b@,
            start as int,
            n as nat,
            ws as nat,
        ),
{
    let len: usize = b.len();
    let w: usize = ws as usize;
    let mut pos: usize = start;
    let mut i: u64 = 0;
    let ghost before = title_views(out@);
    let ghost all = entries_at(b@, start as int, n as nat, ws as nat);
    assert(title_views(out@) + entries_at(b@, pos as int, (n - i) as nat, ws as nat) =~= before
        + all);
    while i < n
        invariant
            is_word_size(ws as int),
            w == ws,
            len == b@.len(),
            pos <= len,
            i <= n,
            title_views(out@) + entries_at(b@, pos as int, (n - i) as nat, ws as nat) == before
                + all,
        decreases n - i,
    {
        let id: i64 = read_int_at(b, pos, ws);
        let fits: bool = len - pos >= w + 72;
        let name: String = if fits {
            let raw: String = decode_lossy(slice_subrange(b, pos + w, pos + w + 72));
            trim_text(raw.as_str())
        } else {
            let raw: String = decode_lossy(slice_subrange(b, 0, 0));
            assert(b@.subrange(0, 0) =~= Seq::<u8>::empty());
            trim_text(raw.as_str())
        };
        let ghost held = title_views(out@);
        let ghost entry = (id, name@);
        out.push((id, name));
        proof {
            assert(title_views(out@) =~= held.push(entry));
            let rest = entries_at(b@, pos + ws + 72, (n - i - 1) as nat, ws as nat);
            assert(entries_at(b@, pos as int, (n - i) as nat, ws as nat) =~= seq![entry] + rest);
            assert(held.push(entry) + rest =~= held + (seq![entry] + rest));
            if !fits {
                lemma_entries_past_end(
                    b@,
                    pos + ws + 72,
                    len as int,
                    (n - i - 1) as nat,
                    ws as nat,
                );
            }
        }
        pos = if fits { pos + w + 72 } else { len };
        i = i + 1;
    }
    assert(title_views(out@) =~= before + all);
}

impl D3plot {
    /// Byte offset of the solid connectivity: right behind the node coordinates.
    pub open spec fn solids_off(self) -> nat {
        self.ctrl@.coord_off + 3 * self.ctrl.numnp as nat * self.ctrl@.wordsize
    }

    /// Byte offset of the shell connectivity: behind those of solids, thick shells
    /// and beams.
    pub open spec fn shells_off(self) -> nat {
        self.solids_off() + (9 * self.ctrl@.nel8 + 9 * self.ctrl@.nelth + 6 * self.ctrl@.nel2)
            * self.ctrl@.wordsize
    }

    /// Byte offset of the numbering section, behind all connectivity.
    pub open spec fn numbering_off(self) -> nat {
        self.solids_off() + self.ctrl@.connectivity_words() * self.ctrl@.wordsize
    }

    /// The words of `n` connectivity records of `per` nodes from byte `off` on.
    pub open spec fn raw_records(self, off: nat, n: nat, per: nat) -> Seq<i64> {
        ints_at(file_at(self.files@, 0), off as int, n * (per + 1), self.ctrl@.wordsize)
    }

    proof fn lemma_mesh_offsets(self)
        requires
            self.wf(),
        ensures
            self.solids_off() <= usize::MAX,
            self.shells_off() <= usize::MAX,
            self.numbering_off() <= usize::MAX,
            3 * self.ctrl.numnp <= usize::MAX,
            (9 * self.ctrl@.nel8 + 9 * self.ctrl@.nelth + 6 * self.ctrl@.nel2)
                * self.ctrl@.wordsize <= usize::MAX,
            self.ctrl@.connectivity_words() * self.ctrl@.wordsize <= usize::MAX,
            self.ctrl@.connectivity_words() <= usize::MAX,
            3 * self.ctrl.numnp * self.ctrl@.wordsize <= usize::MAX,
    {
        let v = self.ctrl@;
        lemma_state_terms(v);
        let ws = v.wordsize;
        let n = 3 * v.numnp as nat;
        let a = 9 * v.nel8 + 9 * v.nelth + 6 * v.nel2;
        let c = v.connectivity_words();
        assert((n + c + v.narbs) * ws == n * ws + c * ws + v.narbs * ws && a * ws <= c * ws && 0 <= v.narbs
            * ws && 0 <= n * ws && 0 <= a * ws) by (nonlinear_arith)
            requires
                0 <= a <= c,
                0 <= n,
                0 <= v.narbs,
                0 <= ws,
        ;
    }

    /// Reads `n` connectivity records of `per` nodes and a part.
    fn connectivity(&self, off: usize, n: usize, per: usize) -> (r: (Vec<i64>, Vec<i64>))
        requires
            self.wf(),
            1 <= per <= 8,
            n * (per + 1) <= usize::MAX,
        ensures
            ({
                let raw = self.raw_records(off as nat, n as nat, per as nat);
                let k = raw.len() / (per + 1) as nat;
                &&& r.0@ == record_nodes(raw, per as nat, k)
                &&& r.1@ == record_parts(raw, per as nat, k)
            }),
    {
        let stride: usize = per + 1;
        let raw: Vec<i64> = read_ints_at(
            self.files[0].as_slice(),
            off,
            n * stride,
            self.ctrl.wordsize as usize,
        );
        let k: usize = raw.len() / stride;
        let mut nodes: Vec<i64> = Vec::new();
        let mut parts: Vec<i64> = Vec::new();
        let len: usize = raw.len();
        for i in 0..k
            invariant
                stride == per + 1,
                1 <= per <= 8,
                len == raw@.len(),
                k == len / stride,
                nodes@ == record_nodes(raw@, per as nat, i as nat),
                parts@ == record_parts(raw@, per as nat, i as nat),
        {
            assert(i * stride + stride <= len) by (nonlinear_arith)
                requires
                    i + 1 <= k,
                    k == len / stride,
                    stride > 0,
            ;
            let at: usize = i * stride;
            nodes.extend_from_slice(slice_subrange(raw.as_slice(), at, at + per));
            parts.push(raw[at + per]);
            proof {
                assert(nodes@ =~= record_nodes(raw@, per as nat, (i + 1) as nat));
                assert(parts@ =~= record_parts(raw@, per as nat, (i + 1) as nat));
            }
        }
        (nodes, parts)
    }

    /// `r` holds the nodes and the parts of the shells, as far as the file has them.
    pub open spec fn is_shell_connectivity(self, r: (Vec<i64>, Vec<i64>)) -> bool {
        let raw = self.raw_records(self.shells_off(), self.ctrl@.nel4, 4);
        &&& r.0@ == record_nodes(raw, 4, raw.len() / 5)
        &&& r.1@ == record_parts(raw, 4, raw.len() / 5)
    }

    /// `r` holds the nodes and the parts of the solids, as far as the file has them.
    pub open spec fn is_solid_connectivity(self, r: (Vec<i64>, Vec<i64>)) -> bool {
        let raw = self.raw_records(self.solids_off(), self.ctrl@.nel8, 8);
        &&& r.0@ == record_nodes(raw, 8, raw.len() / 9)
        &&& r.1@ == record_parts(raw, 8, raw.len() / 9)
    }

    /// Shell connectivity: four one-based node numbers per shell, and the parts.
    pub fn shell_connectivity(&self) -> (r: (Vec<i64>, Vec<i64>))
        requires
            self.wf(),
        ensures
            self.is_shell_connectivity(r),
    {
        proof {
            self.lemma_mesh_offsets();
        }
        let ws: usize = self.ctrl.wordsize as usize;
        let c = &self.ctrl;
        let off: usize = c.coord_off as usize + 3 * c.numnp * ws + (9 * c.nel8 + 9 * c.nelth + 6
            * c.nel2) * ws;
        self.connectivity(off, c.nel4, 4)
    }

    /// Solid connectivity: eight one-based node numbers per solid, and the parts.
    pub fn solid_connectivity(&self) -> (r: (Vec<i64>, Vec<i64>))
        requires
            self.wf(),
        ensures
            self.is_solid_connectivity(r),
    {
        proof {
            self.lemma_mesh_offsets();
        }
        let ws: usize = self.ctrl.wordsize as usize;
        let off: usize = self.ctrl.coord_off as usize + 3 * self.ctrl.numnp * ws;
        self.connectivity(off, self.ctrl.nel8, 8)
    }

    /// Header words of the numbering section: 16 when its first word is negative,
    /// else 10.
    pub open spec fn numbering_header(self) -> nat {
        if int_at(file_at(self.files@, 0), self.numbering_off() as int, self.ctrl@.wordsize) < 0 {
            16
        } else {
            10
        }
    }

    /// `n` user numbers, `skip` numbers into the section; `1..=n` when there is no
    /// section.
    pub open spec fn user_numbers(self, skip: nat, n: nat) -> Seq<i64> {
        if self.ctrl@.narbs == 0 || n == 0 {
            counting(n)
        } else {
            ints_at(
                file_at(self.files@, 0),
                (self.numbering_off() + (self.numbering_header() + skip)
                    * self.ctrl@.wordsize) as int,
                n,
                self.ctrl@.wordsize,
            )
        }
    }

    fn read_numbers(&self, skip: usize, n: usize) -> (r: Vec<i64>)
        requires
            self.wf(),
            n <= i64::MAX,
        ensures
            r@ == self.user_numbers(skip as nat, n as nat),
    {
        if self.ctrl.narbs == 0 || n == 0 {
            return count_up(n);
        }
        proof {
            self.lemma_mesh_offsets();
        }
        let ws: usize = self.ctrl.wordsize as usize;
        let c = &self.ctrl;
        let at: usize = c.coord_off as usize + 3 * c.numnp * ws + (9 * c.nel8 + 9 * c.nelth + 6
            * c.nel2 + 5 * c.nel4) * ws;
        assert(at == self.numbering_off());
        let b: &[u8] = self.files[0].as_slice();
        let len: usize = b.len();
        let header: u128 = if read_int_at(b, at, self.ctrl.wordsize) < 0 { 16 } else { 10 };
        let ghost target = self.numbering_off() + (self.numbering_header() + skip)
            * self.ctrl@.wordsize;
        assert((header + skip) * ws == (self.numbering_header() + skip) * self.ctrl@.wordsize);
        assert((header + skip) * ws <= 0x1_0000_0000_0000_0010 * 8) by (nonlinear_arith)
            requires
                header + skip <= 0x1_0000_0000_0000_0010,
                0 <= ws <= 8,
                0 <= header + skip,
        ;
        let off: u128 = at as u128 + (header + skip as u128) * ws as u128;
        if off >= len as u128 {
            let none: Vec<i64> = Vec::new();
            proof {
                let w = crate::d3plot::words::words_available(
                    len as nat,
                    target as int,
                    n as nat,
                    ws as nat,
                );
                assert(target == off);
                assert(n * ws > 0) by (nonlinear_arith)
                    requires
                        n > 0,
                        ws > 0,
                ;
                assert(none@ =~= self.user_numbers(skip as nat, n as nat));
            }
            return none;
        }
        read_ints_at(b, off as usize, n, ws)
    }

    proof fn lemma_counts(self)
        requires
            self.wf(),
        ensures
            self.ctrl.numnp <= i64::MAX,
            self.ctrl.nel8 <= i64::MAX,
            self.ctrl.nel4 <= i64::MAX,
            self.ctrl.nmmat <= i64::MAX,
            self.ctrl.numnp + self.ctrl.nel8 + self.ctrl.nel2 + self.ctrl.nel4 + self.ctrl.nelth
                <= usize::MAX,
    {
        let v = self.ctrl@;
        lemma_state_terms(v);
        crate::d3plot::header::lemma_header_counts(file_at(self.files@, 0));
        let g = 3 * v.numnp + v.connectivity_words() + v.narbs;
        assert(g <= g * v.wordsize) by (nonlinear_arith)
            requires
                v.wordsize >= 1,
                g >= 0,
        ;
    }

    /// The user numbers of the nodes.
    pub open spec fn node_numbers(self) -> Seq<i64> {
        self.user_numbers(0, self.ctrl.numnp as nat)
    }

    /// The user numbers of the solids.
    pub open spec fn solid_numbers(self) -> Seq<i64> {
        self.user_numbers(self.ctrl.numnp as nat, self.ctrl@.nel8)
    }

    /// The user numbers of the shells.
    pub open spec fn shell_numbers(self) -> Seq<i64> {
        self.user_numbers(
            (self.ctrl.numnp + self.ctrl.nel8 + self.ctrl.nel2) as nat,
            self.ctrl@.nel4,
        )
    }

    /// The user numbers of the parts.
    pub open spec fn part_numbers(self) -> Seq<i64> {
        self.user_numbers(
            (self.ctrl.numnp + self.ctrl.nel8 + self.ctrl.nel2 + self.ctrl.nel4
                + self.ctrl.nelth) as nat,
            self.ctrl@.nmmat,
        )
    }

    /// User node numbers.
    pub fn node_ids(&self) -> (r: Vec<i64>)
        requires
            self.wf(),
        ensures
            r@ == self.node_numbers(),
    {
        proof {
            self.lemma_counts();
        }
        self.read_numbers(0, self.ctrl.numnp)
    }

    /// User solid numbers.
    pub fn solid_ids(&self) -> (r: Vec<i64>)
        requires
            self.wf(),
        ensures
            r@ == self.solid_numbers(),
    {
        proof {
            self.lemma_counts();
        }
        self.read_numbers(self.ctrl.numnp, self.ctrl.nel8)
    }

    /// User shell numbers.
    pub fn shell_ids(&self) -> (r: Vec<i64>)
        requires
            self.wf(),
        ensures
            r@ == self.shell_numbers(),
    {
        proof {
            self.lemma_counts();
        }
        self.read_numbers(self.ctrl.numnp + self.ctrl.nel8 + self.ctrl.nel2, self.ctrl.nel4)
    }

    /// User part numbers.
    pub fn part_ids(&self) -> (r: Vec<i64>)
        requires
            self.wf(),
        ensures
            r@ == self.part_numbers(),
    {
        proof {
            self.lemma_counts();
        }
        let c = &self.ctrl;
        self.read_numbers(c.numnp + c.nel8 + c.nel2 + c.nel4 + c.nelth, c.nmmat)
    }

    /// Part ids and titles of the title section, which an end marker right behind
    /// the geometry announces; none without one.
    pub fn part_titles(&self) -> (r: Vec<(i64, String)>)
        requires
            self.wf(),
        ensures
            title_views(r@) == ({
                let b = file_at(self.files@, 0);
                let at = self.ctrl@.geom_bytes as int;
                if float_at(b, at, self.ctrl@.wordsize) == EOF_MARKER {
                    titles_from(b, at + self.ctrl@.wordsize, self.ctrl@.wordsize)
                } else {
                    Seq::empty()
                }
            }),
    {
        let ws: u64 = self.ctrl.wordsize;
        let w: usize = ws as usize;
        let b: &[u8] = self.files[0].as_slice();
        let len: usize = b.len();
        let at: usize = self.ctrl.geom_bytes as usize;
        let mut out: Vec<(i64, String)> = Vec::new();
        if read_float_at(b, at, ws) != EOF_MARKER {
            assert(title_views(out@) =~= Seq::<(i64, Seq<char>)>::empty());
            return out;
        }
        assert(at + w <= len);
        let mut pos: usize = at + w;
        let ghost all = titles_from(b@, pos as int, ws as nat);
        assert(title_views(out@) + titles_from(b@, pos as int, ws as nat) =~= all);
        loop
            invariant_except_break
                is_word_size(ws as int),
                w == ws,
                len == b@.len(),
                pos <= len,
                title_views(out@) + titles_from(b@, pos as int, ws as nat) == all,
            ensures
                title_views(out@) == all,
            decreases len - pos,
        {
            let t: i64 = read_int_at(b, pos, ws);
            if t == 90000 {
                let next: usize = clamp_sum(pos, w + 72, len);
                proof {
                    if pos + w + 72 > len {
                        lemma_past_end(b@, pos + w + 72, next as int, ws as nat);
                    }
                }
                pos = next;
            } else if t == 90001 || t == 90002 || t == 90020 {
                let c: i64 = read_int_at(b, clamp_sum(pos, w, len), ws);
                let n: u64 = if c > 0 { c as u64 } else { 0 };
                assert(n == count(int_at(b@, pos + w, ws as nat)));
                let first: usize = clamp_sum(pos, 2 * w, len);
                let ghost tail = pos + 2 * w + n * (w + 72);
                let ghost rest = titles_from(b@, tail, ws as nat);
                if t == 90001 {
                    let ghost held = title_views(out@);
                    read_entries(b, first, n, ws, &mut out);
                    proof {
                        if pos + 2 * w > len {
                            lemma_entries_past_end(
                                b@,
                                pos + 2 * w,
                                first as int,
                                n as nat,
                                ws as nat,
                            );
                        }
                        assert(title_views(out@) + rest =~= held + (entries_at(
                            b@,
                            pos + 2 * w,
                            n as nat,
                            ws as nat,
                        ) + rest));
                    }
                }
                assert(n * (w + 72) >= 0) by (nonlinear_arith);
                let span: usize = if n > usize::MAX as u64 {
                    assert(n * (w + 72) > len) by (nonlinear_arith)
                        requires
                            n > len,
                            w >= 0,
                    ;
                    len
                } else {
                    clamp_product(n as usize, w + 72, len)
                };
                let next: usize = clamp_sum(first, span, len);
                proof {
                    if tail > len {
                        lemma_past_end(b@, tail, next as int, ws as nat);
                    }
                }
                pos = next;
            } else if t == 90100 {
                let c: i64 = read_int_at(b, clamp_sum(pos, w, len), ws);
                let n: u64 = if c > 0 { c as u64 } else { 0 };
                let first: usize = clamp_sum(pos, 2 * w, len);
                let span: usize = if n > usize::MAX as u64 {
                    len
                } else {
                    clamp_product(n as usize, 80, len)
                };
                let next: usize = clamp_sum(first, span, len);
                let ghost tail = pos + 2 * w + n * 80;
                proof {
                    if tail > len {
                        lemma_past_end(b@, tail, next as int, ws as nat);
                    }
                }
                pos = next;
            } else {
                assert(title_views(out@) =~= all);
                break;
            }
        }
        out
    }
}

} // verus!
