//! Reading a database: locating the states of a file family, and extracting
//! their contents.

use crate::d3plot::control::{Control, ControlView};
use crate::d3plot::header::{control_of, oversize, read_control_bytes};
use crate::d3plot::image::EOF_MARKER;
use crate::d3plot::words::{
    float_at, floats_at, is_word_size, read_float_at, read_floats_at,
};
use crate::d3plot::D3plotError;
use crate::text::{dec, push_dec};
use vstd::prelude::*;

verus! {

/// Where a state lies: the family file, and the byte offset of its start.
#[derive(Debug, Clone, Copy)]
pub struct StateLoc {
    pub file: usize,
    pub offset: u64,
}

/// The offsets of the states in one file from `off` on: they follow each other
/// as long as a whole state fits and its time is not the end marker.
pub open spec fn states_in(b: Seq<u8>, off: int, bps: nat, ws: nat) -> Seq<int>
    decreases b.len() - off,
{
    if bps > 0 && 0 <= off && off + bps <= b.len() && float_at(b, off, ws) != EOF_MARKER {
        seq![off] + states_in(b, off + bps, bps, ws)
    } else {
        Seq::empty()
    }
}

/// File `f` of the family.
pub open spec fn file_at(files: Seq<Vec<u8>>, f: int) -> Seq<u8> {
    files[f]@
}

/// The offsets of the states in file `f`: behind the geometry in the base file,
/// from the start in the others.
pub open spec fn file_states(files: Seq<Vec<u8>>, f: int, v: ControlView) -> Seq<int> {
    states_in(
        file_at(files, f),
        if f == 0 {
            v.geom_bytes as int
        } else {
            0
        },
        v.bytes_per_state(),
        v.wordsize,
    )
}

/// The places (file and offset) of the states in the first `n` files. An end
/// marker ends the states of its own file only.
pub open spec fn family_states(files: Seq<Vec<u8>>, n: nat, v: ControlView) -> Seq<(int, int)>
    decreases n,
{
    if n == 0 {
        Seq::empty()
    } else {
        let f = n - 1;
        let offs = file_states(files, f, v);
        family_states(files, f as nat, v) + Seq::new(offs.len(), |i: int| (f, offs[i]))
    }
}

/// The places held by `locs`.
pub open spec fn places(locs: Seq<StateLoc>) -> Seq<(int, int)> {
    Seq::new(locs.len(), |i: int| (locs[i].file as int, locs[i].offset as int))
}

/// The times of the states at `p`.
pub open spec fn times_at(files: Seq<Vec<u8>>, p: Seq<(int, int)>, ws: nat) -> Seq<u64> {
    Seq::new(p.len(), |i: int| float_at(file_at(files, p[i].0), p[i].1, ws))
}

proof fn lemma_states_in_bounds(b: Seq<u8>, off: int, bps: nat, ws: nat)
    requires
        0 <= off,
    ensures
        forall|i: int|
            0 <= i < states_in(b, off, bps, ws).len() ==> {
                let o = #[trigger] states_in(b, off, bps, ws)[i];
                off <= o && o + bps <= b.len()
            },
    decreases b.len() - off,
{
    if bps > 0 && off + bps <= b.len() && float_at(b, off, ws) != EOF_MARKER {
        lemma_states_in_bounds(b, off + bps, bps, ws);
        let rest = states_in(b, off + bps, bps, ws);
        assert forall|i: int| 0 <= i < states_in(b, off, bps, ws).len() implies {
            let o = #[trigger] states_in(b, off, bps, ws)[i];
            off <= o && o + bps <= b.len()
        } by {
            if i > 0 {
                assert(states_in(b, off, bps, ws)[i] == rest[i - 1]);
            }
        }
    }
}

/// Every state lies within its file.
pub proof fn lemma_family_bounds(files: Seq<Vec<u8>>, n: nat, v: ControlView)
    requires
        n <= files.len(),
    ensures
        forall|i: int|
            0 <= i < family_states(files, n, v).len() ==> {
                let p = #[trigger] family_states(files, n, v)[i];
                0 <= p.0 < n && 0 <= p.1 && p.1 + v.bytes_per_state() <= file_at(files, p.0).len()
            },
    decreases n,
{
    if n > 0 {
        let f = n - 1;
        lemma_family_bounds(files, f as nat, v);
        let off = if f == 0 {
            v.geom_bytes as int
        } else {
            0
        };
        lemma_states_in_bounds(file_at(files, f), off, v.bytes_per_state(), v.wordsize);
        let before = family_states(files, f as nat, v);
        let offs = file_states(files, f, v);
        assert forall|i: int| 0 <= i < family_states(files, n, v).len() implies {
            let p = #[trigger] family_states(files, n, v)[i];
            0 <= p.0 < n && 0 <= p.1 && p.1 + v.bytes_per_state() <= file_at(files, p.0).len()
        } by {
            if i < before.len() {
                assert(family_states(files, n, v)[i] == before[i]);
            } else {
                assert(family_states(files, n, v)[i] == (f, offs[i - before.len()]));
            }
        }
    }
}

/// Appends the states of file `f`.
fn index_file(
    bytes: &Vec<u8>,
    f: usize,
    start: usize,
    ctrl: &Control,
    states: &mut Vec<StateLoc>,
    times: &mut Vec<u64>,
)
    requires
        ctrl.wf(),
    ensures
        ({
            let offs = states_in(
                bytes@,
                start as int,
                ctrl@.bytes_per_state(),
                ctrl@.wordsize,
            );
            &&& places(final(states)@) == places(old(states)@) + Seq::new(
                offs.len(),
                |i: int| (f as int, offs[i]),
            )
            &&& final(times)@ == old(times)@ + Seq::new(
                offs.len(),
                |i: int| float_at(bytes@, offs[i], ctrl@.wordsize),
            )
        }),
{
    let ghost b = bytes@;
    let ghost w = ctrl@.wordsize;
    let bps: usize = ctrl.bytes_per_state() as usize;
    let len: usize = bytes.len();
    let mut off: usize = start;
    let ghost all = states_in(b, start as int, bps as nat, w);
    let ghost old_places = places(states@);
    let ghost old_times = times@;
    let ghost mut done: Seq<int> = Seq::empty();
    assert(done + states_in(b, off as int, bps as nat, w) =~= all);
    assert(places(states@) =~= old_places + Seq::new(done.len(), |i: int| (f as int, done[i])));
    assert(times@ =~= old_times + Seq::new(done.len(), |i: int| float_at(b, done[i], w)));
    loop
        invariant_except_break
            ctrl.wf(),
            b == bytes@,
            len == bytes@.len(),
            w == ctrl@.wordsize,
            bps == ctrl@.bytes_per_state(),
            bps > 0,
            all == states_in(b, start as int, bps as nat, w),
            done + states_in(b, off as int, bps as nat, w) == all,
            places(states@) == old_places + Seq::new(done.len(), |i: int| (f as int, done[i])),
            times@ == old_times + Seq::new(done.len(), |i: int| float_at(b, done[i], w)),
        ensures
            places(states@) == old_places + Seq::new(all.len(), |i: int| (f as int, all[i])),
            times@ == old_times + Seq::new(all.len(), |i: int| float_at(b, all[i], w)),
        decreases len - off,
    {
        if off > len || bps > len - off {
            assert(done =~= all);
            break;
        }
        let t: u64 = read_float_at(bytes.as_slice(), off, ctrl.wordsize);
        if t == EOF_MARKER {
            assert(done =~= all);
            break;
        }
        let ghost before = states@;
        times.push(t);
        states.push(StateLoc { file: f, offset: off as u64 });
        proof {
            let next = done.push(off as int);
            assert(places(states@) =~= places(before).push((f as int, off as int)));
            assert(next + states_in(b, off + bps, bps as nat, w) =~= done + states_in(
                b,
                off as int,
                bps as nat,
                w,
            ));
            assert(places(states@) =~= old_places + Seq::new(
                next.len(),
                |i: int| (f as int, next[i]),
            ));
            assert(times@ =~= old_times + Seq::new(next.len(), |i: int| float_at(b, next[i], w)));
            done = next;
        }
        off = off + bps;
    }
}

/// What `index_family` says of a database without displacements.
pub open spec fn no_displacement() -> Seq<char> {
    "d3plot has no nodal displacement data (IU=0)"@
}

/// Why a family cannot be indexed, or `None` when it can.
pub open spec fn index_error(b: Seq<u8>) -> Option<D3plotFault> {
    match control_of(b) {
        None => Some(D3plotFault::BadHeader),
        Some(v) => if !v.fits() {
            Some(D3plotFault::Says(oversize()))
        } else if v.iu == 0 {
            Some(D3plotFault::Says(no_displacement()))
        } else {
            None
        },
    }
}

/// An error, by its meaning.
pub enum D3plotFault {
    BadHeader,
    Says(Seq<char>),
}

impl D3plotError {
    pub open spec fn is_fault(self, f: D3plotFault) -> bool {
        match f {
            D3plotFault::BadHeader => self is BadHeader,
            D3plotFault::Says(m) => self.says(m),
        }
    }
}

/// Reads the control block of the base file and locates the states of the whole
/// family, with their times.
pub fn index_family(files: &Vec<Vec<u8>>) -> (r: Result<
    (Control, Vec<StateLoc>, Vec<u64>),
    D3plotError,
>)
    requires
        files@.len() > 0,
    ensures
        match index_error(file_at(files@, 0)) {
            Some(f) => r matches Err(e) && e.is_fault(f),
            None => r matches Ok(x) && {
                &&& control_of(file_at(files@, 0)) == Some(x.0@)
                &&& x.0.wf()
                &&& x.0.iu != 0
                &&& places(x.1@) == family_states(files@, files@.len(), x.0@)
                &&& x.2@ == times_at(files@, places(x.1@), x.0@.wordsize)
            },
        },
{
    let ctrl: Control = match read_control_bytes(files[0].as_slice()) {
        Ok(c) => c,
        Err(e) => return Err(e),
    };
    if ctrl.iu == 0 {
        return Err(
            D3plotError::Unsupported(
                String::from_str("d3plot has no nodal displacement data (IU=0)"),
            ),
        );
    }
    let mut states: Vec<StateLoc> = Vec::new();
    let mut times: Vec<u64> = Vec::new();
    let ghost v = ctrl@;
    assert(places(states@) =~= family_states(files@, 0, v));
    assert(times@ =~= times_at(files@, places(states@), v.wordsize));
    for f in 0..files.len()
        invariant
            ctrl.wf(),
            v == ctrl@,
            places(states@) == family_states(files@, f as nat, v),
            times@ == times_at(files@, places(states@), v.wordsize),
    {
        let start: usize = if f == 0 { ctrl.geom_bytes as usize } else { 0 };
        let ghost before = places(states@);
        index_file(&files[f], f, start, &ctrl, &mut states, &mut times);
        proof {
            let offs = file_states(files@, f as int, v);
            assert(places(states@) =~= family_states(files@, (f + 1) as nat, v));
            assert(times@ =~= times_at(files@, places(states@), v.wordsize)) by {
                let p = places(states@);
                let t = times_at(files@, p, v.wordsize);
                assert(times@.len() == t.len());
                assert forall|i: int| 0 <= i < t.len() implies times@[i] == t[i] by {
                    if i < before.len() {
                        assert(p[i] == before[i]);
                    } else {
                        assert(p[i] == (f as int, offs[i - before.len()]));
                    }
                }
            }
        }
    }
    Ok((ctrl, states, times))
}

/// A database in memory: its family of files, the control block, and the places
/// and times of its states.
pub struct D3plot {
    pub ctrl: Control,
    pub files: Vec<Vec<u8>>,
    pub states: Vec<StateLoc>,
    /// Initial node coordinates, three per node.
    pub x0: Vec<u64>,
    pub times: Vec<u64>,
}

impl D3plot {
    /// The control block is that of the base file, and the states are those of
    /// the family.
    pub open spec fn wf(self) -> bool {
        &&& self.files@.len() > 0
        &&& control_of(file_at(self.files@, 0)) == Some(self.ctrl@)
        &&& self.ctrl.wf()
        &&& self.ctrl.iu != 0
        &&& places(self.states@) == family_states(self.files@, self.files@.len(), self.ctrl@)
        &&& self.times@ == times_at(self.files@, places(self.states@), self.ctrl@.wordsize)
        &&& self.x0@ == floats_at(
            file_at(self.files@, 0),
            self.ctrl@.coord_off as int,
            3 * self.ctrl.numnp as nat,
            self.ctrl@.wordsize,
        )
    }

    /// Opens a family of files, the base file first.
    pub fn from_files(files: Vec<Vec<u8>>) -> (r: Result<Self, D3plotError>)
        requires
            files@.len() > 0,
        ensures
            match index_error(file_at(files@, 0)) {
                Some(f) => r matches Err(e) && e.is_fault(f),
                None => {
                    let v = control_of(file_at(files@, 0))->0;
                    if v.coord_off + 3 * v.numnp * v.wordsize <= file_at(files@, 0).len() {
                        r matches Ok(d) && d.wf() && d.files == files
                    } else {
                        r matches Err(e) && e.says("d3plot truncated: float block out of range"@)
                    }
                },
            },
    {
        let (ctrl, states, times): (Control, Vec<StateLoc>, Vec<u64>) = match index_family(&files) {
            Ok(x) => x,
            Err(e) => return Err(e),
        };
        proof {
            crate::d3plot::control::lemma_state_terms(ctrl@);
        }
        let x0: Vec<u64> = match read_floats_at(
            files[0].as_slice(),
            ctrl.coord_off as usize,
            ctrl.numnp * 3,
            ctrl.wordsize,
        ) {
            Ok(x) => x,
            Err(e) => return Err(e),
        };
        Ok(D3plot { ctrl, files, states, x0, times })
    }

    /// The bytes of the file that holds state `s`.
    pub open spec fn file_of(self, s: int) -> Seq<u8> {
        file_at(self.files@, self.states@[s].file as int)
    }

    /// The `n` doubles of state `s` from word `off` of the state on.
    pub open spec fn state_floats(self, s: int, off: nat, n: nat) -> Seq<u64> {
        floats_at(
            self.file_of(s),
            self.states@[s].offset + off * self.ctrl@.wordsize,
            n,
            self.ctrl@.wordsize,
        )
    }

    /// The same `n` doubles of each of the selected states, one state after the
    /// other.
    pub open spec fn gather(self, sel: Seq<usize>, off: nat, n: nat) -> Seq<u64>
        decreases sel.len(),
    {
        if sel.len() == 0 {
            Seq::empty()
        } else {
            self.gather(sel.drop_last(), off, n) + self.state_floats(sel.last() as int, off, n)
        }
    }

    /// All states in order.
    pub open spec fn every_state(self) -> Seq<usize> {
        Seq::new(self.states@.len(), |i: int| i as usize)
    }

    /// State `s` lies within its file.
    pub proof fn lemma_place(self, s: int)
        requires
            self.wf(),
            0 <= s < self.states@.len(),
        ensures
            self.states@[s].file < self.files@.len(),
            self.states@[s].offset + self.ctrl@.bytes_per_state() <= self.file_of(s).len(),
            self.states@[s].offset <= usize::MAX,
    {
        lemma_family_bounds(self.files@, self.files@.len(), self.ctrl@);
        let p = places(self.states@);
        assert(p[s] == (self.states@[s].file as int, self.states@[s].offset as int));
        let len = self.files@[self.states@[s].file as int].len();
        assert(self.file_of(s).len() == len);
    }

    /// Reads `n` doubles of state `s` from word `off` of the state on.
    pub fn read_state(&self, s: usize, off: usize, n: usize) -> (r: Vec<u64>)
        requires
            self.wf(),
            s < self.states@.len(),
            off + n <= self.ctrl@.state_words(),
        ensures
            r@ == self.state_floats(s as int, off as nat, n as nat),
    {
        let ws: u64 = self.ctrl.wordsize;
        let loc: StateLoc = self.states[s];
        proof {
            self.lemma_place(s as int);
            lemma_within(off as nat, n as nat, self.ctrl@.state_words(), ws as nat);
        }
        let len: usize = self.files[loc.file].len();
        assert(loc.offset + off * ws <= len);
        let at: usize = loc.offset as usize + off * ws as usize;
        match read_floats_at(self.files[loc.file].as_slice(), at, n, ws) {
            Ok(v) => v,
            Err(_) => {
                assert(false);
                Vec::new()
            },
        }
    }

    /// Reads the same `n` doubles of each of the selected states.
    pub fn read_states(&self, sel: &[usize], off: usize, n: usize) -> (r: Vec<u64>)
        requires
            self.wf(),
            forall|i: int| 0 <= i < sel@.len() ==> #[trigger] sel@[i] < self.states@.len(),
            off + n <= self.ctrl@.state_words(),
        ensures
            r@ == self.gather(sel@, off as nat, n as nat),
    {
        let mut out: Vec<u64> = Vec::new();
        assert(out@ =~= self.gather(sel@.take(0), off as nat, n as nat));
        for i in 0..sel.len()
            invariant
                self.wf(),
                forall|i: int| 0 <= i < sel@.len() ==> #[trigger] sel@[i] < self.states@.len(),
                off + n <= self.ctrl@.state_words(),
                out@ == self.gather(sel@.take(i as int), off as nat, n as nat),
        {
            let mut part: Vec<u64> = self.read_state(sel[i], off, n);
            out.append(&mut part);
            proof {
                assert(sel@.take(i + 1).drop_last() =~= sel@.take(i as int));
                assert(sel@.take(i + 1).last() == sel@[i as int]);
            }
        }
        assert(sel@.take(sel@.len() as int) =~= sel@);
        out
    }

    /// `0..n_states`.
    pub fn all_states(&self) -> (r: Vec<usize>)
        ensures
            r@ == self.every_state(),
    {
        let mut out: Vec<usize> = Vec::new();
        let n: usize = self.states.len();
        for i in 0..n
            invariant
                n == self.states@.len(),
                out@.len() == i,
                forall|k: int| 0 <= k < i ==> out@[k] == k,
        {
            out.push(i);
        }
        assert(out@ =~= self.every_state());
        out
    }

    pub fn control(&self) -> (r: &Control)
        ensures
            *r == self.ctrl,
    {
        &self.ctrl
    }

    pub fn num_nodes(&self) -> (r: usize)
        ensures
            r == self.ctrl.numnp,
    {
        self.ctrl.numnp
    }

    pub fn num_states(&self) -> (r: usize)
        ensures
            r == self.states@.len(),
    {
        self.states.len()
    }

    /// The time of each state.
    pub fn times(&self) -> (r: &[u64])
        ensures
            r@ == self.times@,
    {
        self.times.as_slice()
    }

    /// Initial node coordinates, three per node.
    pub fn initial_coordinates(&self) -> (r: &[u64])
        ensures
            r@ == self.x0@,
    {
        self.x0.as_slice()
    }

    /// The bytes of a family file.
    pub fn file_bytes(&self, i: usize) -> (r: &[u8])
        requires
            i < self.files@.len(),
        ensures
            r@ == file_at(self.files@, i as int),
    {
        self.files[i].as_slice()
    }

    /// The file type of the control block.
    pub fn filetype(&self) -> (r: i64)
        ensures
            r == self.ctrl.filetype,
    {
        self.ctrl.filetype
    }

    /// What an out-of-range state is answered.
    pub open spec fn state_message(self, state: nat) -> Seq<char> {
        "state "@ + dec(state) + " out of range ("@ + dec(self.states@.len()) + ")"@
    }

    /// The node coordinates of state `s`.
    pub open spec fn coordinates_in(self, s: int) -> Seq<u64> {
        self.state_floats(s, 1 + self.ctrl@.nglbv, 3 * self.ctrl.numnp as nat)
    }

    /// The node coordinates of all states.
    pub open spec fn all_coordinates(self) -> Seq<u64> {
        self.gather(self.every_state(), 1 + self.ctrl@.nglbv, 3 * self.ctrl.numnp as nat)
    }

    /// Deformed node coordinates of a state, three per node.
    pub fn node_coordinates(&self, state: usize) -> (r: Result<Vec<u64>, D3plotError>)
        requires
            self.wf(),
        ensures
            if state < self.states@.len() {
                r matches Ok(v) && v@ == self.coordinates_in(state as int)
            } else {
                r matches Err(e) && e.says(self.state_message(state as nat))
            },
    {
        if state >= self.states.len() {
            return Err(out_of_range(state, self.states.len()));
        }
        proof {
            crate::d3plot::control::lemma_state_terms(self.ctrl@);
        }
        Ok(self.read_state(state, 1 + self.ctrl.nglbv, 3 * self.ctrl.numnp))
    }

    /// Deformed node coordinates of every state, one state after the other.
    pub fn node_coordinates_all(&self) -> (r: Result<Vec<u64>, D3plotError>)
        requires
            self.wf(),
        ensures
            r matches Ok(v) && v@ == self.all_coordinates(),
    {
        proof {
            crate::d3plot::control::lemma_state_terms(self.ctrl@);
        }
        let all: Vec<usize> = self.all_states();
        Ok(self.read_states(all.as_slice(), 1 + self.ctrl.nglbv, 3 * self.ctrl.numnp))
    }
}

/// The error for a state number beyond the last.
pub fn out_of_range(state: usize, n: usize) -> (e: D3plotError)
    ensures
        e.says("state "@ + dec(state as nat) + " out of range ("@ + dec(n as nat) + ")"@),
{
    let mut s: String = String::from_str("state ");
    push_dec(&mut s, state as u64);
    s.append(" out of range (");
    push_dec(&mut s, n as u64);
    s.append(")");
    D3plotError::Unsupported(s)
}

/// Words within a state are bytes within its bytes.
pub proof fn lemma_within(off: nat, n: nat, total: nat, ws: nat)
    requires
        off + n <= total,
        is_word_size(ws as int),
    ensures
        off * ws + n * ws <= total * ws,
        off * ws <= total * ws,
{
    assert(off * ws + n * ws <= total * ws) by (nonlinear_arith)
        requires
            off + n <= total,
    ;
    assert(n * ws >= 0) by (nonlinear_arith);
}

} // verus!
