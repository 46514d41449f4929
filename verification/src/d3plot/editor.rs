//! Overwriting result blocks of an existing database in place.

use crate::d3plot::control::Control;
use crate::d3plot::header::control_of;
use crate::d3plot::query::lemma_block_within;
use crate::d3plot::reader::{
    family_states, file_at, index_error, index_family, lemma_family_bounds, lemma_within,
    out_of_range, places, StateLoc,
};
use crate::d3plot::words::floats_at;
use crate::d3plot::{D3plotError, StateBlock};
use crate::ieee::widened;
use crate::le::{byte_of, lemma_le_at_of_bytes, lemma_le_at_same, lemma_pow256_values};
use crate::text::{dec, push_dec};
use vstd::prelude::*;

verus! {

/// A single-precision database in memory whose blocks can be overwritten. All
/// that is not overwritten stays as it was, byte for byte.
pub struct D3plotEditor {
    pub files: Vec<Vec<u8>>,
    pub ctrl: Control,
    pub states: Vec<StateLoc>,
}

/// The bytes of single-precision patterns.
pub open spec fn single_bytes(data: Seq<u32>) -> Seq<u8> {
    Seq::new(4 * data.len(), |i: int| byte_of(data[i / 4] as nat, (i % 4) as nat))
}

/// `b` with the bytes `d` in place of those from `at` on.
pub open spec fn overwritten(b: Seq<u8>, at: int, d: Seq<u8>) -> Seq<u8> {
    Seq::new(
        b.len(),
        |i: int|
            if at <= i < at + d.len() {
                d[i - at]
            } else {
                b[i]
            },
    )
}

/// What was written is read back, as doubles.
pub proof fn law_overwritten_reads_back(b: Seq<u8>, at: int, data: Seq<u32>)
    requires
        0 <= at,
        at + 4 * data.len() <= b.len(),
    ensures
        floats_at(overwritten(b, at, single_bytes(data)), at, data.len(), 4) == Seq::new(
            data.len(),
            |i: int| widened(data[i]) as u64,
        ),
{
    let n = overwritten(b, at, single_bytes(data));
    let f = floats_at(n, at, data.len(), 4);
    assert forall|i: int| 0 <= i < data.len() implies #[trigger] f[i] == widened(data[i]) as u64 by {
        let o = at + i * 4;
        assert forall|j: int| 0 <= j < 4 implies #[trigger] n[o + j] == byte_of(
            data[i] as nat,
            j as nat,
        ) by {
            assert((i * 4 + j) / 4 == i && (i * 4 + j) % 4 == j);
        }
        lemma_le_at_of_bytes(n, o, data[i] as nat, 4);
        lemma_pow256_values();
    }
    assert(f =~= Seq::new(data.len(), |i: int| widened(data[i]) as u64));
}

/// Words outside of what was written read as before.
pub proof fn law_overwritten_keeps_rest(
    b: Seq<u8>,
    at: int,
    data: Seq<u32>,
    off: int,
    n: nat,
)
    requires
        0 <= at,
        at + 4 * data.len() <= b.len(),
        0 <= off,
        off + 4 * n <= at || at + 4 * data.len() <= off,
    ensures
        floats_at(overwritten(b, at, single_bytes(data)), off, n, 4) == floats_at(b, off, n, 4),
        overwritten(b, at, single_bytes(data)).len() == b.len(),
{
    let c = overwritten(b, at, single_bytes(data));
    let f = floats_at(c, off, n, 4);
    let g = floats_at(b, off, n, 4);
    assert forall|i: int| 0 <= i < n implies #[trigger] f[i] == g[i] by {
        let o = off + i * 4;
        if o + 4 <= b.len() {
            assert forall|j: int| 0 <= j < 4 implies #[trigger] c[o + j] == b[o + j] by {}
            lemma_le_at_same(c, o, b, o, 4);
        }
    }
    assert(f =~= g);
}

impl D3plotEditor {
    /// Every state lies within its file.
    pub open spec fn wf(self) -> bool {
        &&& self.ctrl.wf()
        &&& self.ctrl.wordsize == 4
        &&& forall|i: int|
            0 <= i < self.states@.len() ==> {
                let p = #[trigger] self.states@[i];
                p.file < self.files@.len() && p.offset + self.ctrl@.bytes_per_state() <= file_at(
                    self.files@,
                    p.file as int,
                ).len()
            }
    }

    /// Takes a family of files for editing, the base file first.
    pub fn from_files(files: Vec<Vec<u8>>) -> (r: Result<Self, D3plotError>)
        requires
            files@.len() > 0,
        ensures
            match index_error(file_at(files@, 0)) {
                Some(f) => r matches Err(e) && e.is_fault(f),
                None => {
                    let v = control_of(file_at(files@, 0))->0;
                    if v.wordsize == 4 {
                        r matches Ok(d) && {
                            &&& d.wf()
                            &&& d.files == files
                            &&& d.ctrl@ == v
                            &&& places(d.states@) == family_states(files@, files@.len(), v)
                        }
                    } else {
                        r matches Err(e) && e.says(
                            "editing double-precision d3plots is not supported"@,
                        )
                    }
                },
            },
    {
        let (ctrl, states, _times): (Control, Vec<StateLoc>, Vec<u64>) = match index_family(
            &files,
        ) {
            Ok(x) => x,
            Err(e) => return Err(e),
        };
        if ctrl.wordsize != 4 {
            return Err(
                D3plotError::Unsupported(
                    String::from_str("editing double-precision d3plots is not supported"),
                ),
            );
        }
        let d: D3plotEditor = D3plotEditor { files, ctrl, states };
        proof {
            lemma_family_bounds(files@, files@.len(), ctrl@);
            let p = places(states@);
            assert forall|i: int| 0 <= i < states@.len() implies {
                let q = #[trigger] states@[i];
                q.file < files@.len() && q.offset + ctrl@.bytes_per_state() <= file_at(
                    files@,
                    q.file as int,
                ).len()
            } by {
                assert(p[i] == (states@[i].file as int, states@[i].offset as int));
            }
        }
        Ok(d)
    }

    pub fn control(&self) -> (r: &Control)
        ensures
            *r == self.ctrl,
    {
        &self.ctrl
    }

    pub fn num_nodes(&self) -> (r: usize)
        ensures
            r == self.ctrl.numnp,
    {
        self.ctrl.numnp
    }

    pub fn num_states(&self) -> (r: usize)
        ensures
            r == self.states@.len(),
    {
        self.states.len()
    }

    /// Why a block cannot be overwritten, or `None`.
    pub open spec fn block_error(self, block: StateBlock, state: nat, len: nat) -> Option<Seq<char>> {
        let p = self.ctrl@.block_place(block);
        if !self.ctrl@.has_block(block) {
            Some("block not present in this d3plot"@)
        } else if len != p.1 * p.2 {
            Some(
                "data length "@ + dec(len) + " != count*vars ("@ + dec(p.1 * p.2) + ")"@,
            )
        } else if state >= self.states@.len() {
            Some("state "@ + dec(state) + " out of range ("@ + dec(self.states@.len()) + ")"@)
        } else {
            None
        }
    }

    /// Byte offset of a block of a state in its file.
    pub open spec fn block_at(self, block: StateBlock, state: int) -> int {
        self.states@[state].offset + 4 * self.ctrl@.block_place(block).0
    }

    /// Overwrites a result block of one state with single-precision patterns. Only
    /// these bytes change.
    pub fn set_block(&mut self, block: StateBlock, state: usize, data: &[u32]) -> (r: Result<
        (),
        D3plotError,
    >)
        requires
            old(self).wf(),
        ensures
            match old(self).block_error(block, state as nat, data@.len()) {
                Some(m) => r matches Err(e) && e.says(m) && *final(self) == *old(self),
                None => {
                    let f = old(self).states@[state as int].file as int;
                    &&& r is Ok
                    &&& final(self).wf()
                    &&& final(self).ctrl == old(self).ctrl
                    &&& final(self).states == old(self).states
                    &&& final(self).files@.len() == old(self).files@.len()
                    &&& forall|k: int|
                        0 <= k < old(self).files@.len() && k != f ==> (#[trigger] final(self).files@[k])
                            == old(self).files@[k]
                    &&& file_at(final(self).files@, f) == overwritten(
                        file_at(old(self).files@, f),
                        old(self).block_at(block, state as int),
                        single_bytes(data@),
                    )
                },
            },
    {
        let (off, count, vars): (usize, usize, usize) = match self.ctrl.block_spec(block) {
            Some(x) => x,
            None => return Err(
                D3plotError::Unsupported(String::from_str("block not present in this d3plot")),
            ),
        };
        proof {
            lemma_block_within(self.ctrl@, block);
            lemma_within(
                off as nat,
                (count * vars) as nat,
                self.ctrl@.state_words(),
                4,
            );
        }
        let per: usize = count * vars;
        if data.len() != per {
            let mut m: String = String::from_str("data length ");
            push_dec(&mut m, data.len() as u64);
            m.append(" != count*vars (");
            push_dec(&mut m, per as u64);
            m.append(")");
            return Err(D3plotError::Unsupported(m));
        }
        if state >= self.states.len() {
            return Err(out_of_range(state, self.states.len()));
        }
        let loc: StateLoc = self.states[state];
        let f: usize = loc.file;
        let len: usize = self.files[f].len();
        assert(loc.offset + off * 4 + per * 4 <= len);
        let base: usize = loc.offset as usize + off * 4;
        let mut file: Vec<u8> = Vec::new();
        std::mem::swap(&mut file, &mut self.files[f]);
        overwrite(&mut file, base, data);
        std::mem::swap(&mut file, &mut self.files[f]);
        Ok(())
    }

    /// Overwrites the deformed node coordinates of one state, three per node.
    pub fn set_node_coordinates(&mut self, state: usize, coords: &[u32]) -> (r: Result<
        (),
        D3plotError,
    >)
        requires
            old(self).wf(),
        ensures
            match old(self).block_error(StateBlock::Displacement, state as nat, coords@.len()) {
                Some(m) => r matches Err(e) && e.says(m) && *final(self) == *old(self),
                None => {
                    let f = old(self).states@[state as int].file as int;
                    &&& r is Ok
                    &&& final(self).wf()
                    &&& final(self).ctrl == old(self).ctrl
                    &&& final(self).states == old(self).states
                    &&& final(self).files@.len() == old(self).files@.len()
                    &&& forall|k: int|
                        0 <= k < old(self).files@.len() && k != f ==> (#[trigger] final(self).files@[k])
                            == old(self).files@[k]
                    &&& file_at(final(self).files@, f) == overwritten(
                        file_at(old(self).files@, f),
                        old(self).block_at(StateBlock::Displacement, state as int),
                        single_bytes(coords@),
                    )
                },
            },
    {
        self.set_block(StateBlock::Displacement, state, coords)
    }
}

/// Overwrites the bytes from `at` on with single-precision patterns.
fn overwrite(file: &mut Vec<u8>, at: usize, data: &[u32])
    requires
        at + 4 * data@.len() <= old(file)@.len(),
    ensures
        final(file)@ == overwritten(old(file)@, at as int, single_bytes(data@)),
{
    let ghost start = file@;
    let len: usize = file.len();
    assert(single_bytes(data@.take(0)) =~= Seq::<u8>::empty());
    assert(file@ =~= overwritten(start, at as int, single_bytes(data@.take(0))));
    for i in 0..data.len()
        invariant
            at + 4 * data@.len() <= len,
            len == start.len(),
            file@ == overwritten(start, at as int, single_bytes(data@.take(i as int))),
    {
        let v: u32 = data[i];
        let o: usize = at + 4 * i;
        let mut word: Vec<u8> = Vec::new();
        crate::le::push_u32(&mut word, v);
        file[o] = word[0];
        file[o + 1] = word[1];
        file[o + 2] = word[2];
        file[o + 3] = word[3];
        proof {
            let d = single_bytes(data@.take(i + 1));
            let target = overwritten(start, at as int, d);
            assert(file@.len() == target.len());
            assert forall|k: int| 0 <= k < file@.len() implies file@[k] == target[k] by {
                let j = k - at;
                if 4 * i <= j < 4 * i + 4 {
                    assert(j / 4 == i && j % 4 == j - 4 * i);
                    assert(d[j] == byte_of(v as nat, (j - 4 * i) as nat));
                }
            }
            assert(file@ =~= target);
        }
    }
    assert(data@.take(data@.len() as int) =~= data@);
}

} // verus!
