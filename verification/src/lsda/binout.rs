//! Reading time histories from an LSDA family.

use crate::ieee::{double_of_int, from_uint, int_of_double, to_int};
use crate::lsda::arena::{frozen, Cursor};
use crate::lsda::diskfile::Diskfile;
use crate::lsda::edit::lemma_find_push;
use crate::lsda::graft::lemma_find_prefix;
use crate::lsda::symbol::{node_read, texts, ReadResult, ReadView};
use crate::lsda::table::{build_read_tree, family_tables};
use crate::lsda::tree::{Path, SymNode};
use crate::lsda::{LsdaError, LsdaFault};
use crate::text::{decode_lossy, text_of, trim_text, trimmed};
use vstd::prelude::*;
use vstd::slice::slice_subrange;

verus! {

/// The files of a binout and the tree of what they hold.
pub struct Binout {
    pub filelist: Vec<String>,
    pub files: Vec<Diskfile>,
    pub tree: SymNode,
}

/// A channel over time. The values are bit patterns of doubles.
#[derive(Debug, Clone)]
pub struct TimeSeries {
    pub time: Vec<u64>,
    pub values: Vec<u64>,
    pub channel: String,
}

/// A variable over all state directories: one row per state, one column per
/// channel. The values are bit patterns of doubles.
#[derive(Debug, Clone)]
pub struct StateMatrix {
    /// One value per state.
    pub time: Vec<u64>,
    /// Row by row: channel `j` of state `i` is at `i * n_channels + j`.
    pub values: Vec<u64>,
    /// The user number of each column, or nothing if the branch tells none.
    pub ids: Vec<i64>,
    pub n_steps: usize,
    pub n_channels: usize,
}

/// The place of the first occurrence of `id`.
pub open spec fn first_place(s: Seq<i64>, id: i64) -> Option<usize> {
    if s.contains(id) {
        Some(s.index_of_first(id)->0 as usize)
    } else {
        None
    }
}

impl StateMatrix {
    /// Column `j`.
    pub open spec fn column_of(self, j: int) -> Seq<u64> {
        Seq::new(self.n_steps as nat, |i: int| self.values@[i * self.n_channels + j])
    }

    /// There is a value for every state in column `j`.
    pub open spec fn has_column(self, j: int) -> bool {
        self.n_steps > 0 ==> (self.n_steps - 1) * self.n_channels + j < self.values@.len()
    }

    /// All channels at one state.
    pub fn row(&self, step: usize) -> (r: &[u64])
        requires
            (step + 1) * self.n_channels <= self.values@.len(),
        ensures
            r@ == self.values@.subrange(
                step * self.n_channels,
                (step + 1) * self.n_channels,
            ),
    {
        let n: usize = self.n_channels;
        let total: usize = self.values.len();
        assert(self.values@.len() == total);
        assert(0 <= step * n && step * n + n == (step + 1) * n) by (nonlinear_arith);
        slice_subrange(self.values.as_slice(), step * n, step * n + n)
    }

    /// One channel over all states.
    pub fn column(&self, channel: usize) -> (r: Vec<u64>)
        requires
            self.has_column(channel as int),
        ensures
            r@ == self.column_of(channel as int),
    {
        let n: usize = self.n_channels;
        let total: usize = self.values.len();
        let mut out: Vec<u64> = Vec::new();
        for i in 0..self.n_steps
            invariant
                self.has_column(channel as int),
                n == self.n_channels,
                total == self.values@.len(),
                out@.len() == i,
                forall|k: int| 0 <= k < i ==> out@[k] == self.values@[k * n + channel],
        {
            assert(0 <= i * n <= (self.n_steps - 1) * n) by (nonlinear_arith)
                requires
                    0 <= i <= self.n_steps - 1,
            ;
            out.push(self.values[i * n + channel]);
        }
        assert(out@ =~= self.column_of(channel as int));
        out
    }

    /// The column of a user number.
    pub fn index_of(&self, id: i64) -> (r: Option<usize>)
        ensures
            r == first_place(self.ids@, id),
    {
        for i in 0..self.ids.len()
            invariant
                forall|k: int| 0 <= k < i ==> self.ids@[k] != id,
        {
            if self.ids[i] == id {
                proof {
                    let s = self.ids@;
                    assert(s[i as int] == id);
                    s.index_of_first_ensures(id);
                    let f = s.index_of_first(id)->0;
                    assert(s[f] == id);
                    assert(f == i);
                }
                return Some(i);
            }
        }
        None
    }

    /// One entity over all states, by its user number.
    pub fn column_by_id(&self, id: i64) -> (r: Option<Vec<u64>>)
        requires
            self.ids@.contains(id) ==> self.has_column(first_place(self.ids@, id)->0 as int),
        ensures
            r is Some <==> self.ids@.contains(id),
            r matches Some(v) ==> v@ == self.column_of(first_place(self.ids@, id)->0 as int),
    {
        match self.index_of(id) {
            Some(j) => {
                proof {
                    self.ids@.index_of_first_ensures(id);
                }
                Some(self.column(j))
            },
            None => None,
        }
    }
}

/// The contents of a path given as texts.
pub open spec fn parts_of(path: Seq<&str>) -> Seq<Seq<char>> {
    Seq::new(path.len(), |i: int| path[i]@)
}

/// The names of a path given as texts.
pub open spec fn path_of(t: Seq<Seq<char>>) -> Path {
    Seq::new(t.len(), |i: int| vstd::utf8::encode_utf8(t[i]))
}

/// How many names of `p`, from `k` on, lead to nodes.
pub open spec fn known_names(t: SymNode, p: Path, k: int) -> int
    decreases p.len() - k,
{
    if k >= p.len() || t.find(p.take(k + 1)) is None {
        k
    } else {
        known_names(t, p, k + 1)
    }
}

/// What a read of a path gives.
pub open spec fn read_in(t: SymNode, files: Seq<Diskfile>, path: Seq<Seq<char>>) -> Result<
    ReadView,
    LsdaFault,
> {
    let p = path_of(path);
    match t.find(p) {
        Some(n) => node_read(n, files),
        None => Err(LsdaFault::SymbolNotFound(path[known_names(t, p, 0)])),
    }
}

/// The name of a state directory: `d` and a number.
pub open spec fn is_state_name(b: Seq<u8>) -> bool {
    &&& b.len() > 1
    &&& b[0] == 100
    &&& forall|i: int| 1 <= i < b.len() ==> 48 <= #[trigger] b[i] <= 57
}

/// The state directories among names.
pub open spec fn state_names(keys: Seq<Seq<char>>) -> Seq<Seq<char>>
    decreases keys.len(),
{
    if keys.len() == 0 {
        Seq::empty()
    } else {
        let rest = state_names(keys.drop_last());
        if is_state_name(vstd::utf8::encode_utf8(keys.last())) {
            rest.push(keys.last())
        } else {
            rest
        }
    }
}

/// The first value, or 0.
pub open spec fn first_or_zero(r: Result<ReadView, LsdaFault>) -> u64 {
    match r {
        Ok(v) => if v.doubles().len() > 0 {
            v.doubles()[0]
        } else {
            0
        },
        Err(_) => 0,
    }
}

/// The integer parts of doubles.
pub open spec fn ints_of(s: Seq<u64>) -> Seq<i64> {
    Seq::new(s.len(), |i: int| int_of_double(s[i]) as i64)
}

/// A double as a byte: its integer part, held to the range of a byte.
pub open spec fn byte_of_double(x: u64) -> u8 {
    let v = int_of_double(x);
    if v < 0 {
        0
    } else if v > 255 {
        255
    } else {
        v as u8
    }
}

pub open spec fn bytes_of(s: Seq<u64>) -> Seq<u8> {
    Seq::new(s.len(), |i: int| byte_of_double(s[i]))
}

/// Bytes of each share when `n` entities share `len` bytes: at least one.
pub open spec fn share_width(len: nat, n: nat) -> nat {
    if len / n > 0 {
        len / n
    } else {
        1
    }
}

/// The text in share `i` of `n`, trimmed; no text behind the last byte.
pub open spec fn share(b: Seq<u8>, n: nat, i: int) -> Seq<char> {
    let w = share_width(b.len(), n);
    if i * w < b.len() {
        trimmed(text_of(b.subrange(i * w, i * w + w)))
    } else {
        Seq::empty()
    }
}

/// The texts in the first `k` of `n` shares.
pub open spec fn shares(b: Seq<u8>, n: nat, k: nat) -> Seq<Seq<char>> {
    Seq::new(k, |i: int| share(b, n, i))
}

/// A share that begins within the bytes ends within them.
proof fn lemma_share(len: nat, n: nat, i: int)
    requires
        0 <= i < n,
    ensures
        ({
            let w = share_width(len, n);
            &&& 0 <= i * w
            &&& i * w <= len || i * w == i
            &&& i * w < len ==> i * w + w <= len
        }),
{
    let w = share_width(len, n);
    if len / n > 0 {
        assert(i * w + w <= len && 0 <= i * w) by (nonlinear_arith)
            requires
                w == len / n,
                n > 0,
                0 <= i,
                i + 1 <= n,
        ;
    } else {
        assert(i * 1 == i);
    }
}

fn ints_from(v: &Vec<u64>) -> (r: Vec<i64>)
    ensures
        r@ == ints_of(v@),
{
    let mut out: Vec<i64> = Vec::new();
    for i in 0..v.len()
        invariant
            out@.len() == i,
            forall|k: int| 0 <= k < i ==> out@[k] == int_of_double(v@[k]) as i64,
    {
        out.push(to_int(v[i]));
    }
    assert(out@ =~= ints_of(v@));
    out
}

fn bytes_from(v: &Vec<u64>) -> (r: Vec<u8>)
    ensures
        r@ == bytes_of(v@),
{
    let mut out: Vec<u8> = Vec::new();
    for i in 0..v.len()
        invariant
            out@.len() == i,
            forall|k: int| 0 <= k < i ==> out@[k] == byte_of_double(v@[k]),
    {
        let x: i64 = to_int(v[i]);
        out.push(if x < 0 { 0 } else if x > 255 { 255 } else { x as u8 });
    }
    assert(out@ =~= bytes_of(v@));
    out
}

fn is_state(b: &[u8]) -> (r: bool)
    ensures
        r == is_state_name(b@),
{
    if b.len() <= 1 || b[0] != 100 {
        return false;
    }
    for i in 1..b.len()
        invariant
            forall|k: int| 1 <= k < i ==> 48 <= #[trigger] b@[k] <= 57,
    {
        if b[i] < 48 || b[i] > 57 {
            return false;
        }
    }
    true
}

/// The values of the first `n` states, one after the other.
pub open spec fn rows(
    t: SymNode,
    files: Seq<Diskfile>,
    branch: Seq<char>,
    states: Seq<Seq<char>>,
    var: Seq<char>,
    n: nat,
) -> Seq<u64>
    decreases n,
{
    if n == 0 {
        Seq::empty()
    } else {
        rows(t, files, branch, states, var, (n - 1) as nat) + (read_in(
            t,
            files,
            seq![branch, states[n - 1], var],
        )->Ok_0).doubles()
    }
}

impl Binout {
    /// The tree is what the symbol tables of the files say.
    pub open spec fn wf(self) -> bool {
        &&& self.tree.wf()
        &&& family_tables(self.files@, self.files@.len()) is Ok
        &&& self.tree.contents() == frozen(
            (family_tables(self.files@, self.files@.len())->Ok_0).entries,
        )
    }

    /// What a read of a path gives.
    pub open spec fn read_at(self, path: Seq<Seq<char>>) -> Result<ReadView, LsdaFault> {
        read_in(self.tree, self.files@, path)
    }

    /// Takes the bytes of the files of a family, in the order of their names.
    pub fn from_files(filelist: Vec<String>, maps: Vec<Vec<u8>>) -> (r: Result<Self, LsdaError>)
        ensures
            maps@.len() == 0 ==> (r matches Err(e) && e@ == LsdaFault::FileNotFound),
            match r {
                Ok(b) => {
                    &&& b.wf()
                    &&& b.filelist == filelist
                    &&& are_files_of(b.files@, maps@)
                },
                Err(e) => family_fault(maps@, e@),
            },
    {
        if maps.len() == 0 {
            return Err(LsdaError::FileNotFound);
        }
        let ghost all = maps@;
        let mut rest: Vec<Vec<u8>> = maps;
        let mut files: Vec<Diskfile> = Vec::new();
        let n: usize = rest.len();
        let mut i: usize = 0;
        proof {
            reveal_strlit("r");
        }
        while i < n
            invariant
                i <= n,
                n == all.len(),
                rest@.len() == n,
                all == maps@,
                n > 0,
                files@.len() == i,
                "r"@.len() == 1,
                "r"@[0] == 'r',
                forall|k: int| i <= k < n ==> rest@[k] == #[trigger] all[k],
                forall|k: int|
                    0 <= k < i ==> (#[trigger] all[k])@.len() >= 8 && is_file_of(
                        files@[k],
                        all[k],
                    ),
            decreases n - i,
        {
            let mut map: Vec<u8> = Vec::new();
            std::mem::swap(&mut map, &mut rest[i]);
            assert(map == all[i as int]);
            match Diskfile::new(map, "r") {
                Ok(f) => {
                    files.push(f);
                },
                Err(e) => {
                    return Err(e);
                },
            }
            i = i + 1;
        }
        let ghost before = files@;
        assert forall|k: int| 0 <= k < files@.len() implies (#[trigger] files@[k]).wf() by {
            assert(is_file_of(files@[k], all[k]));
        }
        match build_read_tree(&mut files) {
            Ok(tree) => {
                proof {
                    crate::lsda::table::lemma_same_tables(files@, before, n as nat);
                    assert forall|k: int| 0 <= k < all.len() implies (#[trigger] all[k])@.len() >= 8
                        && is_file_of(files@[k], all[k]) by {
                        assert(files@[k].same_file(before[k]));
                    }
                }
                Ok(Binout { filelist, files, tree })
            },
            Err(e) => {
                proof {
                    assert(are_files_of(before, all));
                    assert(family_tables(before, before.len()) == Err::<Cursor, LsdaFault>(e@));
                }
                Err(e)
            },
        }
    }

    /// Reads a path: the names in a directory, or the values of a dataset.
    pub fn read(&self, path: &[&str]) -> (r: Result<ReadResult, LsdaError>)
        requires
            self.wf(),
        ensures
            match r {
                Ok(v) => self.read_at(parts_of(path@)) == Ok::<ReadView, LsdaFault>(v@),
                Err(e) => self.read_at(parts_of(path@)) == Err::<ReadView, LsdaFault>(e@),
            },
    {
        match self.resolve(path) {
            Ok(n) => n.read(&self.files),
            Err(e) => Err(e),
        }
    }

    /// Reads many paths.
    pub fn read_many(&self, paths: &[Vec<&str>]) -> (r: Vec<Result<ReadResult, LsdaError>>)
        requires
            self.wf(),
        ensures
            r@.len() == paths@.len(),
            forall|i: int|
                0 <= i < paths@.len() ==> match #[trigger] r@[i] {
                    Ok(v) => self.read_at(parts_of(paths@[i]@)) == Ok::<ReadView, LsdaFault>(v@),
                    Err(e) => self.read_at(parts_of(paths@[i]@)) == Err::<ReadView, LsdaFault>(e@),
                },
    {
        let mut out: Vec<Result<ReadResult, LsdaError>> = Vec::new();
        for i in 0..paths.len()
            invariant
                self.wf(),
                out@.len() == i,
                forall|k: int|
                    0 <= k < i ==> match #[trigger] out@[k] {
                        Ok(v) => self.read_at(parts_of(paths@[k]@)) == Ok::<ReadView, LsdaFault>(
                            v@,
                        ),
                        Err(e) => self.read_at(parts_of(paths@[k]@)) == Err::<
                            ReadView,
                            LsdaFault,
                        >(e@),
                    },
        {
            out.push(self.read(paths[i].as_slice()));
        }
        out
    }

    /// Reads a path as doubles.
    pub fn read_f64(&self, path: &[&str]) -> (r: Result<Vec<u64>, LsdaError>)
        requires
            self.wf(),
        ensures
            match r {
                Ok(v) => self.read_at(parts_of(path@)) is Ok && v@ == (self.read_at(
                    parts_of(path@),
                )->Ok_0).doubles(),
                Err(e) => self.read_at(parts_of(path@)) == Err::<ReadView, LsdaFault>(e@),
            },
    {
        match self.read(path) {
            Ok(v) => Ok(v.to_f64_vec()),
            Err(e) => Err(e),
        }
    }

    /// The path with its last name replaced by `time`.
    pub open spec fn time_path(path: Seq<Seq<char>>) -> Seq<Seq<char>> {
        path.drop_last().push("time"@)
    }

    /// `s` is the channel at a path over the time beside it.
    pub open spec fn is_time_series(self, p: Seq<Seq<char>>, s: TimeSeries) -> bool {
        &&& self.read_at(p) is Ok
        &&& s.values@ == (self.read_at(p)->Ok_0).doubles()
        &&& s.channel@ == p.last()
        &&& s.time@ == match self.read_at(Self::time_path(p)) {
            Ok(v) => v.doubles(),
            Err(_) => Seq::new(s.values@.len(), |i: int| double_of_int(i) as u64),
        }
    }

    /// Reads a channel and the `time` beside it; without one, time counts from 0.
    pub fn read_time_series(&self, path: &[&str]) -> (r: Result<TimeSeries, LsdaError>)
        requires
            self.wf(),
        ensures
            path@.len() == 0 ==> (r matches Err(e) && e@ == LsdaFault::InvalidPath(
                "empty path"@,
            )),
            path@.len() > 0 ==> match r {
                Ok(s) => self.is_time_series(parts_of(path@), s),
                Err(e) => self.read_at(parts_of(path@)) == Err::<ReadView, LsdaFault>(e@),
            },
    {
        if path.len() == 0 {
            return Err(LsdaError::InvalidPath(String::from_str("empty path")));
        }
        let values: Vec<u64> = match self.read_f64(path) {
            Ok(v) => v,
            Err(e) => {
                return Err(e);
            },
        };
        let n: usize = path.len();
        let channel: String = String::from_str(path[n - 1]);
        let mut time_path: Vec<&str> = Vec::new();
        let last: usize = n - 1;
        for i in 0..last
            invariant
                last == path@.len() - 1,
                time_path@.len() == i,
                forall|k: int| 0 <= k < i ==> time_path@[k] == path@[k],
        {
            time_path.push(path[i]);
        }
        time_path.push("time");
        assert(parts_of(time_path@) =~= Self::time_path(parts_of(path@)));
        let time: Vec<u64> = match self.read_f64(time_path.as_slice()) {
            Ok(v) => v,
            Err(_) => {
                let mut out: Vec<u64> = Vec::new();
                for i in 0..values.len()
                    invariant
                        out@.len() == i,
                        forall|k: int| 0 <= k < i ==> out@[k] == double_of_int(k) as u64,
                {
                    out.push(from_uint(i as u64));
                }
                assert(out@ =~= Seq::new(values@.len(), |i: int| double_of_int(i) as u64));
                out
            },
        };
        Ok(TimeSeries { time, values, channel })
    }

    fn resolve(&self, path: &[&str]) -> (r: Result<&SymNode, LsdaError>)
        requires
            self.wf(),
        ensures
            match r {
                Ok(n) => self.tree.find(path_of(parts_of(path@))) == Some(*n),
                Err(e) => {
                    let p = path_of(parts_of(path@));
                    &&& self.tree.find(p) is None
                    &&& e@ == LsdaFault::SymbolNotFound(
                        parts_of(path@)[known_names(self.tree, p, 0)],
                    )
                },
            },
    {
        let ghost p = path_of(parts_of(path@));
        let mut node: &SymNode = &self.tree;
        let mut i: usize = 0;
        assert(p.take(0) =~= Path::empty());
        while i < path.len()
            invariant
                i <= path@.len(),
                p == path_of(parts_of(path@)),
                self.tree.find(p.take(i as int)) == Some(*node),
                node.wf(),
                known_names(self.tree, p, 0) == known_names(self.tree, p, i as int),
            decreases path@.len() - i,
        {
            let seg: &[u8] = path[i].as_bytes();
            assert(p[i as int] == seg@);
            assert(p.take(i + 1) =~= p.take(i as int).push(seg@));
            proof {
                lemma_find_push(self.tree, p.take(i as int), seg@);
            }
            match node.child(seg) {
                Some(c) => {
                    node = c;
                },
                None => {
                    proof {
                        if self.tree.find(p) is Some {
                            lemma_find_prefix(self.tree, p, i + 1);
                        }
                    }
                    return Err(LsdaError::SymbolNotFound(String::from_str(path[i])));
                },
            }
            i = i + 1;
        }
        assert(p.take(path@.len() as int) =~= p);
        Ok(node)
    }

    /// The user numbers of a branch, or nothing.
    pub open spec fn ids_of(self, branch: Seq<char>) -> Result<ReadView, LsdaFault> {
        self.read_at(seq![branch, "metadata"@, "ids"@])
    }

    /// The states of a branch, in order.
    pub open spec fn states_of(self, branch: Seq<char>) -> Seq<Seq<char>> {
        state_names((self.read_at(seq![branch])->Ok_0).key_texts())
    }

    /// The first of the states whose variable cannot be read.
    pub open spec fn unread(self, branch: Seq<char>, var: Seq<char>, i: int) -> bool {
        let s = self.states_of(branch);
        &&& 0 <= i < s.len()
        &&& self.read_at(seq![branch, s[i], var]) is Err
        &&& forall|k: int| 0 <= k < i ==> self.read_at(seq![branch, #[trigger] s[k], var]) is Ok
    }

    /// `m` is a variable gathered over all state directories of a branch, of which there
    /// are some.
    pub open spec fn is_matrix(self, branch: Seq<char>, var: Seq<char>, m: StateMatrix) -> bool {
        let s = self.states_of(branch);
        &&& self.read_at(seq![branch]) is Ok
        &&& s.len() > 0
        &&& forall|i: int|
            0 <= i < s.len() ==> self.read_at(seq![branch, #[trigger] s[i], var]) is Ok
        &&& m.n_steps == s.len()
        &&& m.values@ == rows(self.tree, self.files@, branch, s, var, s.len())
        &&& m.n_channels == (self.read_at(seq![branch, s[0], var])->Ok_0).doubles().len()
        &&& m.time@ == Seq::new(
            s.len(),
            |i: int| first_or_zero(self.read_at(seq![branch, s[i], "time"@])),
        )
        &&& m.ids@ == match self.ids_of(branch) {
            Ok(v) => ints_of(v.doubles()),
            Err(_) => Seq::empty(),
        }
    }

    /// Gathers a variable over all state directories of a branch.
    pub fn read_states(&self, branch: &str, var: &str) -> (r: Result<StateMatrix, LsdaError>)
        requires
            self.wf(),
        ensures
            ({
                let top = self.read_at(seq![branch@]);
                let s = self.states_of(branch@);
                match r {
                    Ok(m) => self.is_matrix(branch@, var@, m),
                    Err(e) => {
                        ||| top == Err::<ReadView, LsdaFault>(e@)
                        ||| top is Ok && s.len() == 0 && e@ == LsdaFault::SymbolNotFound(
                            "no state directories under "@ + branch@,
                        )
                        ||| top is Ok && exists|i: int| #[trigger]
                            self.unread(branch@, var@, i) && self.read_at(
                                seq![branch@, s[i], var@],
                            ) == Err::<ReadView, LsdaFault>(e@)
                    },
                }
            }),
    {
        let head: [&str; 1] = [branch];
        assert(parts_of(head@) =~= seq![branch@]);
        let keys: Vec<String> = match self.read(head.as_slice()) {
            Ok(v) => v.keys(),
            Err(e) => {
                return Err(e);
            },
        };
        let ghost all = texts(keys@);
        let ghost s = self.states_of(branch@);
        let mut states: Vec<String> = Vec::new();
        assert(all.take(0) =~= Seq::<Seq<char>>::empty());
        assert(texts(states@) =~= state_names(all.take(0)));
        for i in 0..keys.len()
            invariant
                all == texts(keys@),
                texts(states@) == state_names(all.take(i as int)),
        {
            assert(all.take(i + 1).drop_last() =~= all.take(i as int));
            assert(all.take(i + 1).last() == keys@[i as int]@);
            if is_state(keys[i].as_str().as_bytes()) {
                let ghost had = states@;
                states.push(String::from_str(keys[i].as_str()));
                assert(texts(states@) =~= texts(had).push(keys@[i as int]@));
            }
        }
        assert(all.take(all.len() as int) =~= all);
        if states.len() == 0 {
            let mut m: String = String::from_str("no state directories under ");
            m.append(branch);
            return Err(LsdaError::SymbolNotFound(m));
        }
        let mut values: Vec<u64> = Vec::new();
        let mut time: Vec<u64> = Vec::new();
        let mut n_channels: usize = 0;
        for i in 0..states.len()
            invariant
                self.wf(),
                s == self.states_of(branch@),
                texts(states@) == s,
                self.read_at(seq![branch@]) is Ok,
                values@ == rows(self.tree, self.files@, branch@, s, var@, i as nat),
                forall|k: int|
                    0 <= k < i ==> self.read_at(seq![branch@, #[trigger] s[k], var@]) is Ok,
                i > 0 ==> n_channels == (self.read_at(
                    seq![branch@, s[0], var@],
                )->Ok_0).doubles().len(),
                time@.len() == i,
                forall|k: int|
                    0 <= k < i ==> time@[k] == first_or_zero(
                        self.read_at(seq![branch@, s[k], "time"@]),
                    ),
        {
            let at: [&str; 3] = [branch, states[i].as_str(), var];
            assert(s[i as int] == states@[i as int]@);
            assert(parts_of(at@) =~= seq![branch@, s[i as int], var@]);
            let mut row: Vec<u64> = match self.read_f64(at.as_slice()) {
                Ok(v) => v,
                Err(e) => {
                    assert(self.unread(branch@, var@, i as int));
                    return Err(e);
                },
            };
            if i == 0 {
                n_channels = row.len();
            }
            values.append(&mut row);
            let when: [&str; 3] = [branch, states[i].as_str(), "time"];
            assert(parts_of(when@) =~= seq![branch@, s[i as int], "time"@]);
            let t: u64 = match self.read_f64(when.as_slice()) {
                Ok(v) => if v.len() > 0 { v[0] } else { 0 },
                Err(_) => 0,
            };
            time.push(t);
        }
        let at: [&str; 3] = [branch, "metadata", "ids"];
        assert(parts_of(at@) =~= seq![branch@, "metadata"@, "ids"@]);
        let ids: Vec<i64> = match self.read_f64(at.as_slice()) {
            Ok(v) => ints_from(&v),
            Err(_) => Vec::new(),
        };
        assert(time@ =~= Seq::new(
            s.len(),
            |i: int| first_or_zero(self.read_at(seq![branch@, s[i], "time"@])),
        ));
        Ok(StateMatrix { time, values, ids, n_steps: states.len(), n_channels })
    }

    /// The user numbers of a branch.
    pub fn ids(&self, branch: &str) -> (r: Result<Vec<i64>, LsdaError>)
        requires
            self.wf(),
        ensures
            match r {
                Ok(v) => self.ids_of(branch@) is Ok && v@ == ints_of(
                    (self.ids_of(branch@)->Ok_0).doubles(),
                ),
                Err(e) => self.ids_of(branch@) == Err::<ReadView, LsdaFault>(e@),
            },
    {
        let at: [&str; 3] = [branch, "metadata", "ids"];
        assert(parts_of(at@) =~= seq![branch@, "metadata"@, "ids"@]);
        match self.read_f64(at.as_slice()) {
            Ok(v) => Ok(ints_from(&v)),
            Err(e) => Err(e),
        }
    }

    /// `t` are the names of the entities of a branch.
    pub open spec fn is_legend(self, branch: Seq<char>, t: Seq<Seq<char>>) -> bool {
        let raw = self.read_at(seq![branch, "metadata"@, "legend"@]);
        let n: nat = match self.ids_of(branch) {
            Ok(v) => v.doubles().len(),
            Err(_) => 0,
        };
        &&& raw is Ok
        &&& t.len() == n
        &&& t == shares(bytes_of((raw->Ok_0).doubles()), n, n)
    }

    /// The names of the entities of a branch, one for each, in equal shares of the
    /// bytes at `metadata/legend`, without white space at their ends. What is left
    /// over behind the shares is no name; entities behind the last byte have an empty
    /// one.
    pub fn legend(&self, branch: &str) -> (r: Result<Vec<String>, LsdaError>)
        requires
            self.wf(),
        ensures
            ({
                let raw = self.read_at(seq![branch@, "metadata"@, "legend"@]);
                match r {
                    Ok(v) => self.is_legend(branch@, texts(v@)),
                    Err(e) => raw == Err::<ReadView, LsdaFault>(e@),
                }
            }),
    {
        let at: [&str; 3] = [branch, "metadata", "ids"];
        assert(parts_of(at@) =~= seq![branch@, "metadata"@, "ids"@]);
        let n: usize = match self.read_f64(at.as_slice()) {
            Ok(v) => v.len(),
            Err(_) => 0,
        };
        let from: [&str; 3] = [branch, "metadata", "legend"];
        assert(parts_of(from@) =~= seq![branch@, "metadata"@, "legend"@]);
        let bytes: Vec<u8> = match self.read_f64(from.as_slice()) {
            Ok(v) => bytes_from(&v),
            Err(e) => {
                return Err(e);
            },
        };
        let mut out: Vec<String> = Vec::new();
        let len: usize = bytes.len();
        let w: usize = if n == 0 || len < n { 1 } else { len / n };
        proof {
            if n > 0 && len >= n {
                assert(len / n >= 1) by (nonlinear_arith)
                    requires
                        len >= n,
                        n > 0,
                ;
            } else if n > 0 {
                assert(len / n == 0) by (nonlinear_arith)
                    requires
                        0 <= len < n,
                ;
            }
        }
        assert(texts(out@) =~= shares(bytes@, n as nat, 0));
        for i in 0..n
            invariant
                len == bytes@.len(),
                n > 0 ==> w == share_width(len as nat, n as nat),
                texts(out@) == shares(bytes@, n as nat, i as nat),
        {
            let ghost had = out@;
            proof {
                lemma_share(len as nat, n as nat, i as int);
            }
            if i * w < len {
                let piece: &[u8] = slice_subrange(bytes.as_slice(), i * w, i * w + w);
                let text: String = decode_lossy(piece);
                out.push(trim_text(text.as_str()));
            } else {
                out.push(String::new());
            }
            assert(texts(out@) =~= texts(had).push(share(bytes@, n as nat, i as int)));
            assert(texts(out@) =~= shares(bytes@, n as nat, (i + 1) as nat));
        }
        assert(texts(out@).len() == out@.len());
        Ok(out)
    }

    /// The title of a branch, without white space at its ends.
    pub fn title(&self, branch: &str) -> (r: Result<String, LsdaError>)
        requires
            self.wf(),
        ensures
            ({
                let raw = self.read_at(seq![branch@, "metadata"@, "title"@]);
                match r {
                    Ok(s) => raw is Ok && s@ == trimmed(
                        text_of(bytes_of((raw->Ok_0).doubles())),
                    ),
                    Err(e) => raw == Err::<ReadView, LsdaFault>(e@),
                }
            }),
    {
        let at: [&str; 3] = [branch, "metadata", "title"];
        assert(parts_of(at@) =~= seq![branch@, "metadata"@, "title"@]);
        match self.read_f64(at.as_slice()) {
            Ok(v) => {
                let bytes: Vec<u8> = bytes_from(&v);
                let text: String = decode_lossy(bytes.as_slice());
                Ok(trim_text(text.as_str()))
            },
            Err(e) => Err(e),
        }
    }

    /// The names in a directory.
    pub fn channels(&self, dir_path: &[&str]) -> (r: Result<Vec<String>, LsdaError>)
        requires
            self.wf(),
        ensures
            match r {
                Ok(v) => self.read_at(parts_of(dir_path@)) is Ok && texts(v@) == (self.read_at(
                    parts_of(dir_path@),
                )->Ok_0).key_texts(),
                Err(e) => self.read_at(parts_of(dir_path@)) == Err::<ReadView, LsdaFault>(e@),
            },
    {
        match self.read(dir_path) {
            Ok(v) => Ok(v.keys()),
            Err(e) => Err(e),
        }
    }
}

/// `f` is the file with these bytes.
pub open spec fn is_file_of(f: Diskfile, map: Vec<u8>) -> bool {
    &&& f.wf()
    &&& f.map == map
    &&& f.length_size == map@[1]
    &&& f.offset_size == map@[2]
    &&& f.command_size == map@[3]
    &&& f.type_size == map@[4]
    &&& f.is_little_endian == (map@[5] == 1)
}

/// The files are those with these bytes.
pub open spec fn are_files_of(files: Seq<Diskfile>, maps: Seq<Vec<u8>>) -> bool {
    &&& files.len() == maps.len()
    &&& forall|i: int|
        0 <= i < maps.len() ==> (#[trigger] maps[i])@.len() >= 8 && is_file_of(files[i], maps[i])
}

/// A family that cannot be read.
pub open spec fn family_fault(maps: Seq<Vec<u8>>, x: LsdaFault) -> bool {
    ||| maps.len() == 0 && x == LsdaFault::FileNotFound
    ||| (exists|i: int| 0 <= i < maps.len() && (#[trigger] maps[i])@.len() < 8) && x
        == LsdaFault::Conversion("LSDA file shorter than its 8-byte header"@)
    ||| exists|files: Seq<Diskfile>| #[trigger]
        are_files_of(files, maps) && family_tables(files, files.len()) == Err::<Cursor, LsdaFault>(
            x,
        )
}

/// Where every state has as many values, the rows of a matrix are the states.
pub proof fn law_row_is_state(b: Binout, branch: Seq<char>, var: Seq<char>, n: nat, w: nat, i: int)
    requires
        ({
            let s = b.states_of(branch);
            &&& n <= s.len()
            &&& 0 <= i < n
            &&& forall|k: int|
                0 <= k < n ==> (b.read_at(
                    seq![branch, #[trigger] s[k], var],
                )->Ok_0).doubles().len() == w
        }),
    ensures
        ({
            let s = b.states_of(branch);
            let all = rows(b.tree, b.files@, branch, s, var, n);
            &&& all.len() == n * w
            &&& all.subrange(i * w, (i + 1) * w) == (b.read_at(
                seq![branch, s[i], var],
            )->Ok_0).doubles()
        }),
    decreases n,
{
    let s = b.states_of(branch);
    let m = (n - 1) as nat;
    let all = rows(b.tree, b.files@, branch, s, var, n);
    let before = rows(b.tree, b.files@, branch, s, var, m);
    let last = (b.read_at(seq![branch, s[m as int], var])->Ok_0).doubles();
    assert(last.len() == w);
    assert(n * w == m * w + w) by (nonlinear_arith)
        requires
            n == m + 1,
    ;
    assert(0 <= i * w && (i + 1) * w == i * w + w && (i + 1) * w <= n * w) by (nonlinear_arith)
        requires
            0 <= i < n,
    ;
    if m == 0 {
        assert(before =~= Seq::<u64>::empty());
        assert(0 * w == 0);
    } else {
        law_row_is_state(b, branch, var, m, w, if i < m { i } else { 0 });
        assert(before.len() == m * w);
    }
    if i < m {
        assert((i + 1) * w <= m * w) by (nonlinear_arith)
            requires
                i + 1 <= m,
        ;
        assert(all.subrange(i * w, (i + 1) * w) =~= before.subrange(i * w, (i + 1) * w));
    } else {
        assert(i == m);
        assert(all.subrange(i * w, (i + 1) * w) =~= last);
    }
}

} // verus!
