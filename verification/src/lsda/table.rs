//! The symbol tables of an LSDA family.

use crate::lsda::arena::{
    add_entry, build_symnode, cd, cursor, dir_meta, entries, frozen, is_tree, lemma_root, reach,
    parts, reachable, walked, went, Cursor, RNode, RawEntry,
};
use crate::lsda::diskfile::{command_at, past_end, value_at, Diskfile, SeekFrom};
use crate::lsda::endian::{int_in, read_int};
use crate::lsda::tree::{Path, SymMeta, SymNode};
use crate::lsda::{LsdaError, LsdaFault};
use crate::text::{dec, decode_lossy, text_of, push_dec};
use vstd::prelude::*;
use vstd::slice::{slice_subrange, slice_to_vec};

verus! {

/// The command that begins a symbol table.
pub const BEGINSYMBOLTABLE: u8 = 5;

/// The sizes of the fields of records, and their byte order.
pub struct Sizes {
    pub length: u8,
    pub offset: u8,
    pub command: u8,
    pub type_: u8,
    pub le: bool,
}

/// The fields of a dataset's record.
pub struct EntryView {
    pub name: Seq<u8>,
    pub type_: u8,
    pub offset: u64,
    pub length: u64,
}

impl View for RawEntry {
    type V = EntryView;

    open spec fn view(&self) -> EntryView {
        EntryView {
            name: self.name@,
            type_: self.type_,
            offset: self.offset,
            length: self.length,
        }
    }
}

impl Diskfile {
    pub open spec fn sizes(self) -> Sizes {
        Sizes {
            length: self.length_size,
            offset: self.offset_size,
            command: self.command_size,
            type_: self.type_size,
            le: self.is_little_endian,
        }
    }
}

/// What is wrong with a dataset's record of `n` bytes.
pub open spec fn corrupt_text(what: Seq<char>, n: nat) -> Seq<char> {
    "corrupt binout symbol-table entry: "@ + what + " ("@ + dec(n) + "-byte record)"@
}

fn corrupt(what: &str, n: usize) -> (r: LsdaError)
    ensures
        r@ == LsdaFault::Conversion(corrupt_text(what@, n as nat)),
{
    let mut s: String = String::from_str("corrupt binout symbol-table entry: ");
    s.append(what);
    s.append(" (");
    push_dec(&mut s, n as u64);
    s.append("-byte record)");
    LsdaError::Conversion(s)
}

/// The fields of a dataset's record: the name, then type, offset and length in the
/// last `comp1` bytes.
pub open spec fn entry_of(
    data: Seq<u8>,
    comp1: nat,
    type_size: u8,
    offset_size: u8,
    length_size: u8,
    le: bool,
) -> Result<EntryView, LsdaFault> {
    let len = data.len();
    let n = len - comp1;
    let off = n + type_size;
    let end = off + offset_size;
    if n < 0 {
        Err(
            LsdaFault::Conversion(
                corrupt_text("record shorter than its fixed fields"@, len),
            ),
        )
    } else if n >= len {
        Err(LsdaFault::Conversion(corrupt_text("missing type byte"@, len)))
    } else if off > len || int_in(data.skip(off), offset_size, le) is None {
        Err(LsdaFault::Conversion(corrupt_text("truncated offset field"@, len)))
    } else if end > len || int_in(data.skip(end), length_size, le) is None {
        Err(LsdaFault::Conversion(corrupt_text("truncated length field"@, len)))
    } else {
        Ok(
            EntryView {
                name: data.take(n),
                type_: data[n],
                offset: int_in(data.skip(off), offset_size, le)->0,
                length: int_in(data.skip(end), length_size, le)->0,
            },
        )
    }
}

/// Reads a number from position `at` on; `None` behind the end.
fn int_from(data: &[u8], at: usize, size: u8, le: bool) -> (r: Option<u64>)
    requires
        at <= data@.len(),
    ensures
        r == int_in(data@.skip(at as int), size, le),
{
    let rest: &[u8] = slice_subrange(data, at, data.len());
    assert(rest@ =~= data@.skip(at as int));
    read_int(rest, size, le)
}

/// Reads a dataset's record: `[name][type][offset][length]`, where `comp1` is the
/// size of the fields behind the name. A record that is cut short is an error.
pub fn parse_entry(
    data: &[u8],
    comp1: usize,
    type_size: u8,
    offset_size: u8,
    length_size: u8,
    le: bool,
) -> (r: Result<RawEntry, LsdaError>)
    ensures
        match r {
            Ok(e) => entry_of(data@, comp1 as nat, type_size, offset_size, length_size, le) == Ok::<
                EntryView,
                LsdaFault,
            >(e@),
            Err(e) => entry_of(data@, comp1 as nat, type_size, offset_size, length_size, le) == Err::<
                EntryView,
                LsdaFault,
            >(e@),
        },
{
    let len: usize = data.len();
    if len < comp1 {
        return Err(corrupt("record shorter than its fixed fields", len));
    }
    let n: usize = len - comp1;
    if n >= len {
        return Err(corrupt("missing type byte", len));
    }
    let name: Vec<u8> = slice_to_vec(slice_subrange(data, 0, n));
    assert(name@ =~= data@.take(n as int));
    let type_: u8 = data[n];
    if type_size as usize > len - n {
        return Err(corrupt("truncated offset field", len));
    }
    let off: usize = n + type_size as usize;
    let offset: u64 = match int_from(data, off, offset_size, le) {
        Some(v) => v,
        None => {
            return Err(corrupt("truncated offset field", len));
        },
    };
    if offset_size as usize > len - off {
        return Err(corrupt("truncated length field", len));
    }
    let end: usize = off + offset_size as usize;
    let length: u64 = match int_from(data, end, length_size, le) {
        Some(v) => v,
        None => {
            return Err(corrupt("truncated length field", len));
        },
    };
    Ok(RawEntry { name, type_, offset, length })
}

/// The tree with a dataset of file `fi` in the current directory.
pub open spec fn declared(c: Cursor, e: EntryView, fi: int) -> Cursor {
    Cursor {
        entries: c.entries.insert(
            c.cwd.push(e.name),
            SymMeta {
                type_: e.type_,
                offset: e.offset,
                length: e.length,
                file_index: fi as usize,
                name_len: e.name.len() as usize,
            },
        ),
        cwd: c.cwd,
    }
}

/// All that is in `m` is in `n` unchanged, and what `n` holds besides is a directory.
pub open spec fn adds_directories(m: Map<Path, SymMeta>, n: Map<Path, SymMeta>) -> bool {
    &&& forall|p: Path|
        m.contains_key(p) ==> #[trigger] n.contains_key(p) && n[p] == m[p]
    &&& forall|p: Path|
        #![trigger n.contains_key(p)]
        n.contains_key(p) && !m.contains_key(p) ==> n[p] == dir_meta()
}

/// Going to a directory changes nothing of what is known: it may add directories, and
/// nothing else.
pub proof fn law_going_keeps_entries(c: Cursor, path: Seq<u8>)
    ensures
        adds_directories(c.entries, went(c, path).entries),
{
    let start = if path.len() > 0 && path[0] == 47 {
        Seq::empty()
    } else {
        c.cwd
    };
    lemma_walk_keeps(Cursor { entries: c.entries, cwd: start }, parts(path));
}

proof fn lemma_walk_keeps(c: Cursor, names: Path)
    ensures
        adds_directories(c.entries, walked(c, names).entries),
    decreases names.len(),
{
    if names.len() > 0 {
        let rest = names.drop_first();
        let q = c.cwd.push(names[0]);
        if names[0] == seq![46u8, 46u8] {
            let up = if c.cwd.len() == 0 {
                c.cwd
            } else {
                c.cwd.drop_last()
            };
            lemma_walk_keeps(Cursor { entries: c.entries, cwd: up }, rest);
        } else if c.entries.contains_key(q) {
            if c.entries[q].type_ == 0 {
                lemma_walk_keeps(Cursor { entries: c.entries, cwd: q }, rest);
            }
        } else {
            let next = c.entries.insert(q, dir_meta());
            let end = walked(c, names).entries;
            lemma_walk_keeps(Cursor { entries: next, cwd: q }, rest);
            assert(adds_directories(next, end));
            assert forall|p: Path| c.entries.contains_key(p) implies #[trigger] end.contains_key(p)
                && end[p] == c.entries[p] by {
                assert(next.contains_key(p));
            }
            assert(next[q] == dir_meta());
        }
    }
}

/// The last declaration of a dataset counts, whichever file it is in; declarations of
/// other names leave it alone.
pub proof fn law_last_declaration_wins(c: Cursor, a: EntryView, fa: int, b: EntryView, fb: int)
    ensures
        a.name == b.name ==> declared(declared(c, a, fa), b, fb) == declared(c, b, fb),
        a.name != b.name ==> {
            let p = c.cwd.push(a.name);
            declared(declared(c, a, fa), b, fb).entries[p] == declared(c, a, fa).entries[p]
        },
{
    let p = c.cwd.push(a.name);
    let q = c.cwd.push(b.name);
    if a.name == b.name {
        assert(declared(declared(c, a, fa), b, fb).entries =~= declared(c, b, fb).entries);
    } else {
        assert(p.last() == a.name && q.last() == b.name);
    }
}

/// A record that says it is shorter than its header.
pub open spec fn short_text(n: nat, head: nat) -> Seq<char> {
    "corrupt binout symbol table: record length "@ + dec(n) + " is smaller than its "@ + dec(head)
        + "-byte header"@
}

fn short_record(n: u64, head: u64) -> (r: LsdaError)
    ensures
        r@ == LsdaFault::Conversion(short_text(n as nat, head as nat)),
{
    let mut s: String = String::from_str("corrupt binout symbol table: record length ");
    push_dec(&mut s, n);
    s.append(" is smaller than its ");
    push_dec(&mut s, head);
    s.append("-byte header");
    LsdaError::Conversion(s)
}

/// The records of a symbol table from position `pos` on: command 2 goes to a
/// directory, command 4 declares a dataset in it, and any other ends the table.
/// Gives the tree, and the position behind the last command.
pub open spec fn records(b: Seq<u8>, h: Sizes, pos: int, c: Cursor, fi: int) -> Result<
    (Cursor, int),
    LsdaFault,
>
    decreases b.len() - pos,
{
    match command_at(b, pos, h.length, h.le) {
        Err(e) => Err(e),
        Ok(x) => {
            let head = h.command + h.length;
            let at = pos + h.length + 1;
            let n = x.0 - head;
            if n < 0 {
                Err(LsdaFault::Conversion(short_text(x.0 as nat, head as nat)))
            } else if x.1 != 2 && x.1 != 4 {
                Ok((c, at))
            } else if at + n > b.len() {
                Err(past_end())
            } else if x.1 == 2 {
                let path = vstd::utf8::encode_utf8(text_of(b.subrange(at, at + n)));
                records(b, h, at + n, went(c, path), fi)
            } else {
                let comp1 = (h.type_ + h.offset + h.length) as nat;
                match entry_of(
                    b.subrange(at, at + n),
                    comp1,
                    h.type_,
                    h.offset,
                    h.length,
                    h.le,
                ) {
                    Err(e) => Err(e),
                    Ok(e) => records(b, h, at + n, declared(c, e, fi), fi),
                }
            }
        },
    }
}

/// What a chain of symbol tables without an end is answered with.
pub open spec fn endless() -> LsdaFault {
    LsdaFault::Conversion("corrupt binout: symbol tables form a cycle"@)
}

/// The chain of symbol tables whose next pointer is at position `pos`. A pointer of
/// 0, or one to anything but a symbol table, ends it. No chain is longer than
/// `limit` tables.
pub open spec fn tables(b: Seq<u8>, h: Sizes, pos: int, c: Cursor, fi: int, limit: nat) -> Result<
    Cursor,
    LsdaFault,
>
    decreases limit,
{
    if limit == 0 {
        Err(endless())
    } else {
        match value_at(b, pos, h.offset, h.le) {
            Err(e) => Err(e),
            Ok(at) => if at == 0 {
                Ok(c)
            } else if at > b.len() {
                Err(LsdaFault::Conversion("seek out of range in LSDA file"@))
            } else {
                match command_at(b, at as int, h.length, h.le) {
                    Err(e) => Err(e),
                    Ok(x) => if x.1 != BEGINSYMBOLTABLE {
                        Ok(c)
                    } else {
                        match records(b, h, at + h.length + 1, c, fi) {
                            Err(e) => Err(e),
                            Ok(y) => tables(b, h, y.1, y.0, fi, (limit - 1) as nat),
                        }
                    },
                }
            },
        }
    }
}

/// All symbol tables of a file. The first pointer stands in the record behind the
/// header. Every table has its own place, so a chain of more tables than the file
/// has places runs in a circle.
pub open spec fn file_tables(b: Seq<u8>, h: Sizes, c: Cursor, fi: int) -> Result<
    Cursor,
    LsdaFault,
> {
    let at = 8 + h.length + h.command;
    if at > b.len() {
        Err(LsdaFault::Conversion("seek out of range in LSDA file"@))
    } else {
        tables(b, h, at, c, fi, b.len() + 1)
    }
}

/// What a reader has walked through so far.
pub open spec fn in_tree(a: Seq<RNode>, cwd: int) -> bool {
    &&& is_tree(a)
    &&& 0 <= cwd < a.len()
    &&& reachable(a, cwd)
}

/// Reads one record; `false` when it ends the table.
fn read_record(arena: &mut Vec<RNode>, cwd: &mut usize, file: &mut Diskfile, fi: usize) -> (r:
    Result<bool, LsdaError>)
    requires
        in_tree(old(arena)@, *old(cwd) as int),
        old(file).wf(),
    ensures
        in_tree(final(arena)@, *final(cwd) as int),
        final(file).same_file(*old(file)),
        ({
            let b = old(file).map@;
            let h = old(file).sizes();
            let before = records(
                b,
                h,
                old(file).pos as int,
                cursor(old(arena)@, *old(cwd) as int),
                fi as int,
            );
            let after = cursor(final(arena)@, *final(cwd) as int);
            match r {
                Ok(true) => before == records(b, h, final(file).pos as int, after, fi as int)
                    && old(file).pos < final(file).pos <= b.len(),
                Ok(false) => before == Ok::<(Cursor, int), LsdaFault>(
                    (after, final(file).pos as int),
                ),
                Err(e) => before == Err::<(Cursor, int), LsdaFault>(e@),
            }
        }),
{
    let head: u64 = file.command_size as u64 + file.length_size as u64;
    let (clen, cmd): (u64, u8) = match file.read_command() {
        Ok(x) => x,
        Err(e) => {
            return Err(e);
        },
    };
    if clen < head {
        return Err(short_record(clen, head));
    }
    let n: u64 = clen - head;
    if cmd != 2 && cmd != 4 {
        return Ok(false);
    }
    if n > file.map.len() as u64 {
        return Err(LsdaError::Conversion(String::from_str("read past end of LSDA file")));
    }
    let data: Vec<u8> = match file.read_slice(n as usize) {
        Ok(d) => d,
        Err(e) => {
            return Err(e);
        },
    };
    if cmd == 2 {
        let path: String = decode_lossy(data.as_slice());
        cd(arena, cwd, path.as_str());
        Ok(true)
    } else {
        match parse_entry(
            data.as_slice(),
            file.comp1,
            file.type_size,
            file.offset_size,
            file.length_size,
            file.is_little_endian,
        ) {
            Ok(entry) => {
                add_entry(arena, *cwd, entry, fi);
                Ok(true)
            },
            Err(e) => Err(e),
        }
    }
}

/// Reads the records of one symbol table.
fn read_records(arena: &mut Vec<RNode>, cwd: &mut usize, file: &mut Diskfile, fi: usize) -> (r:
    Result<(), LsdaError>)
    requires
        in_tree(old(arena)@, *old(cwd) as int),
        old(file).wf(),
    ensures
        in_tree(final(arena)@, *final(cwd) as int),
        final(file).same_file(*old(file)),
        ({
            let all = records(
                old(file).map@,
                old(file).sizes(),
                old(file).pos as int,
                cursor(old(arena)@, *old(cwd) as int),
                fi as int,
            );
            match r {
                Ok(_) => all == Ok::<(Cursor, int), LsdaFault>(
                    (cursor(final(arena)@, *final(cwd) as int), final(file).pos as int),
                ),
                Err(e) => all == Err::<(Cursor, int), LsdaFault>(e@),
            }
        }),
{
    let ghost all = records(
        file.map@,
        file.sizes(),
        file.pos as int,
        cursor(arena@, *cwd as int),
        fi as int,
    );
    let ghost first = *file;
    loop
        invariant
            in_tree(arena@, *cwd as int),
            file.wf(),
            file.same_file(first),
            first == *old(file),
            all == records(
                old(file).map@,
                old(file).sizes(),
                old(file).pos as int,
                cursor(old(arena)@, *old(cwd) as int),
                fi as int,
            ),
            all == records(
                file.map@,
                file.sizes(),
                file.pos as int,
                cursor(arena@, *cwd as int),
                fi as int,
            ),
        decreases
                (if file.pos <= first.map@.len() {
                    first.map@.len() - file.pos + 1
                } else {
                    0
                }),
    {
        match read_record(arena, cwd, file, fi) {
            Ok(true) => {},
            Ok(false) => {
                return Ok(());
            },
            Err(e) => {
                return Err(e);
            },
        }
    }
}

/// Reads the symbol tables of file `fi` of a family.
pub fn read_symbol_table(
    arena: &mut Vec<RNode>,
    cwd: &mut usize,
    file: &mut Diskfile,
    fi: usize,
) -> (r: Result<(), LsdaError>)
    requires
        in_tree(old(arena)@, *old(cwd) as int),
        old(file).wf(),
    ensures
        in_tree(final(arena)@, *final(cwd) as int),
        final(file).same_file(*old(file)),
        ({
            let all = file_tables(
                old(file).map@,
                old(file).sizes(),
                cursor(old(arena)@, *old(cwd) as int),
                fi as int,
            );
            match r {
                Ok(_) => all == Ok::<Cursor, LsdaFault>(
                    cursor(final(arena)@, *final(cwd) as int),
                ),
                Err(e) => all == Err::<Cursor, LsdaFault>(e@),
            }
        }),
{
    let ghost all = file_tables(file.map@, file.sizes(), cursor(arena@, *cwd as int), fi as int);
    let ghost first = *file;
    file.at_eof = false;
    let start: u64 = 8 + file.length_size as u64 + file.command_size as u64;
    match file.seek(SeekFrom::Start(start)) {
        Ok(_) => {},
        Err(e) => {
            return Err(e);
        },
    }
    let mut left: u128 = file.map.len() as u128 + 1;
    while left > 0
        invariant
            in_tree(arena@, *cwd as int),
            file.wf(),
            file.same_file(first),
            first == *old(file),
            all == file_tables(
                old(file).map@,
                old(file).sizes(),
                cursor(old(arena)@, *old(cwd) as int),
                fi as int,
            ),
            all == tables(
                file.map@,
                file.sizes(),
                file.pos as int,
                cursor(arena@, *cwd as int),
                fi as int,
                left as nat,
            ),
        decreases left,
    {
        file.last_offset = file.pos as u64;
        let offset: u64 = match file.read_offset() {
            Ok(v) => v,
            Err(e) => {
                return Err(e);
            },
        };
        if offset == 0 {
            return Ok(());
        }
        match file.seek(SeekFrom::Start(offset)) {
            Ok(_) => {},
            Err(e) => {
                return Err(e);
            },
        }
        match file.read_command() {
            Ok(x) => {
                if x.1 != BEGINSYMBOLTABLE {
                    return Ok(());
                }
            },
            Err(e) => {
                return Err(e);
            },
        }
        match read_records(arena, cwd, file, fi) {
            Ok(_) => {},
            Err(e) => {
                return Err(e);
            },
        }
        left = left - 1;
    }
    Err(LsdaError::Conversion(String::from_str("corrupt binout: symbol tables form a cycle")))
}

/// The empty tree, at its root.
pub open spec fn empty_cursor() -> Cursor {
    Cursor { entries: Map::empty().insert(Path::empty(), dir_meta()), cwd: Path::empty() }
}

/// The tree of the first `n` files of a family. A later file states anew what it
/// has in common with an earlier one, and starts in the directory where that one
/// ended.
pub open spec fn family_tables(files: Seq<Diskfile>, n: nat) -> Result<Cursor, LsdaFault>
    decreases n,
{
    if n == 0 {
        Ok(empty_cursor())
    } else {
        match family_tables(files, (n - 1) as nat) {
            Err(e) => Err(e),
            Ok(c) => file_tables(
                files[n - 1].map@,
                files[n - 1].sizes(),
                c,
                n - 1,
            ),
        }
    }
}

/// The same files, at whatever positions.
pub open spec fn same_files(a: Seq<Diskfile>, b: Seq<Diskfile>) -> bool {
    &&& a.len() == b.len()
    &&& forall|i: int| 0 <= i < a.len() ==> (#[trigger] a[i]).same_file(b[i])
}

pub proof fn lemma_same_tables(a: Seq<Diskfile>, b: Seq<Diskfile>, n: nat)
    requires
        same_files(a, b),
        n <= a.len(),
    ensures
        family_tables(a, n) == family_tables(b, n),
    decreases n,
{
    if n > 0 {
        lemma_same_tables(a, b, (n - 1) as nat);
        assert(a[n - 1].same_file(b[n - 1]));
    }
}

/// Reads the symbol tables of a family into a tree.
pub fn build_read_tree(files: &mut Vec<Diskfile>) -> (r: Result<SymNode, LsdaError>)
    requires
        forall|i: int| 0 <= i < old(files)@.len() ==> (#[trigger] old(files)@[i]).wf(),
    ensures
        same_files(final(files)@, old(files)@),
        match r {
            Ok(t) => {
                &&& t.wf()
                &&& family_tables(old(files)@, old(files)@.len()) is Ok
                &&& t.contents() == frozen(
                    (family_tables(old(files)@, old(files)@.len())->Ok_0).entries,
                )
            },
            Err(e) => family_tables(old(files)@, old(files)@.len()) == Err::<Cursor, LsdaFault>(
                e@,
            ),
        },
{
    let ghost first = files@;
    let mut arena: Vec<RNode> = Vec::new();
    arena.push(RNode::dir(0));
    let mut cwd: usize = 0;
    proof {
        assert(is_tree(arena@));
        lemma_root(arena@);
        assert forall|p: Path| #[trigger] reach(arena@, 0, p) == if p.len() == 0 {
            Some(0int)
        } else {
            None
        } by {
            lemma_lone_root(arena@, p);
        }
        assert forall|p: Path| p.len() == 0 implies p == Path::empty() by {
            assert(p =~= Path::empty());
        }
        assert(entries(arena@) =~= empty_cursor().entries);
    }
    let n: usize = files.len();
    let mut fi: usize = 0;
    while fi < n
        invariant
            fi <= n,
            n == files@.len(),
            n == first.len(),
            first == old(files)@,
            same_files(files@, first),
            in_tree(arena@, cwd as int),
            forall|i: int| 0 <= i < files@.len() ==> (#[trigger] files@[i]).wf(),
            family_tables(first, fi as nat) == Ok::<Cursor, LsdaFault>(
                cursor(arena@, cwd as int),
            ),
        decreases n - fi,
    {
        let ghost before = files@;
        assert(files@[fi as int].same_file(first[fi as int]));
        let r = read_symbol_table(&mut arena, &mut cwd, &mut files[fi], fi);
        proof {
            assert forall|i: int| 0 <= i < files@.len() implies (#[trigger] files@[i]).same_file(
                first[i],
            ) && files@[i].wf() by {
                assert(before[i].same_file(first[i]));
                assert(before[i].wf());
            }
        }
        match r {
            Ok(_) => {},
            Err(e) => {
                proof {
                    lemma_tables_stop(first, fi as nat + 1, n as nat);
                }
                return Err(e);
            },
        }
        fi = fi + 1;
    }
    Ok(build_symnode(arena.as_slice(), 0))
}

/// An error of an early file is that of the family.
proof fn lemma_tables_stop(files: Seq<Diskfile>, i: nat, n: nat)
    requires
        i <= n,
        family_tables(files, i) is Err,
    ensures
        family_tables(files, n) == family_tables(files, i),
    decreases n,
{
    if i < n {
        lemma_tables_stop(files, i, (n - 1) as nat);
    }
}

proof fn lemma_lone_root(a: Seq<RNode>, p: Path)
    requires
        a.len() == 1,
        a[0].children@.len() == 0,
    ensures
        reach(a, 0, p) == if p.len() == 0 {
            Some(0int)
        } else {
            None
        },
    decreases p.len(),
{
    if p.len() > 0 {
        lemma_lone_root(a, p.drop_last());
    }
}

} // verus!
