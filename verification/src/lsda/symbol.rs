//! Datasets as they are read.

use crate::ieee::{double_of_int, from_int, from_uint, widen, widened};
use crate::le::{signed, to_i32, to_i64};
use crate::lsda::diskfile::Diskfile;
use crate::lsda::endian::{is_field_size, lemma_uint_bound, lemma_uint_same, read_int, uint_at};
use crate::lsda::order::names;
use crate::lsda::tree::{SymMeta, SymNode};
use crate::lsda::{LsdaError, LsdaFault};
use crate::text::{decode_lossy, text_of};
use vstd::prelude::*;
use vstd::slice::{slice_subrange, slice_to_vec};

verus! {

/// What a read gives: the names in a directory, or the values of a dataset. Floating
/// point values are bit patterns.
#[derive(Debug)]
pub enum ReadResult {
    Directory(Vec<Vec<u8>>),
    I8(Vec<i8>),
    I16(Vec<i16>),
    I32(Vec<i32>),
    I64(Vec<i64>),
    U8(Vec<u8>),
    U16(Vec<u16>),
    U32(Vec<u32>),
    U64(Vec<u64>),
    F32(Vec<u32>),
    F64(Vec<u64>),
    /// A symbolic link, as its bytes.
    Link(Vec<u8>),
}

/// The values of a read.
pub enum ReadView {
    Directory(Seq<Seq<u8>>),
    I8(Seq<i8>),
    I16(Seq<i16>),
    I32(Seq<i32>),
    I64(Seq<i64>),
    U8(Seq<u8>),
    U16(Seq<u16>),
    U32(Seq<u32>),
    U64(Seq<u64>),
    F32(Seq<u32>),
    F64(Seq<u64>),
    Link(Seq<u8>),
}

/// The contents of byte strings.
pub open spec fn byte_views(s: Seq<Vec<u8>>) -> Seq<Seq<u8>> {
    Seq::new(s.len(), |i: int| s[i]@)
}

impl View for ReadResult {
    type V = ReadView;

    open spec fn view(&self) -> ReadView {
        match *self {
            ReadResult::Directory(v) => ReadView::Directory(byte_views(v@)),
            ReadResult::I8(v) => ReadView::I8(v@),
            ReadResult::I16(v) => ReadView::I16(v@),
            ReadResult::I32(v) => ReadView::I32(v@),
            ReadResult::I64(v) => ReadView::I64(v@),
            ReadResult::U8(v) => ReadView::U8(v@),
            ReadResult::U16(v) => ReadView::U16(v@),
            ReadResult::U32(v) => ReadView::U32(v@),
            ReadResult::U64(v) => ReadView::U64(v@),
            ReadResult::F32(v) => ReadView::F32(v@),
            ReadResult::F64(v) => ReadView::F64(v@),
            ReadResult::Link(v) => ReadView::Link(v@),
        }
    }
}

/// The doubles nearest to integers.
pub open spec fn doubles_of(s: Seq<int>) -> Seq<u64> {
    Seq::new(s.len(), |i: int| double_of_int(s[i]) as u64)
}

/// The text of each name.
pub open spec fn lossy_all(s: Seq<Seq<u8>>) -> Seq<Seq<char>> {
    Seq::new(s.len(), |i: int| text_of(s[i]))
}

/// The contents of texts.
pub open spec fn texts(s: Seq<String>) -> Seq<Seq<char>> {
    Seq::new(s.len(), |i: int| s[i]@)
}

impl ReadView {
    /// The values as doubles; none for a directory or a link.
    pub open spec fn doubles(self) -> Seq<u64> {
        match self {
            ReadView::Directory(_) | ReadView::Link(_) => Seq::empty(),
            ReadView::I8(v) => doubles_of(v.map_values(|x: i8| x as int)),
            ReadView::I16(v) => doubles_of(v.map_values(|x: i16| x as int)),
            ReadView::I32(v) => doubles_of(v.map_values(|x: i32| x as int)),
            ReadView::I64(v) => doubles_of(v.map_values(|x: i64| x as int)),
            ReadView::U8(v) => doubles_of(v.map_values(|x: u8| x as int)),
            ReadView::U16(v) => doubles_of(v.map_values(|x: u16| x as int)),
            ReadView::U32(v) => doubles_of(v.map_values(|x: u32| x as int)),
            ReadView::U64(v) => doubles_of(v.map_values(|x: u64| x as int)),
            ReadView::F32(v) => v.map_values(|x: u32| widened(x) as u64),
            ReadView::F64(v) => v,
        }
    }

    /// The names of a directory, as text; none for a dataset.
    pub open spec fn key_texts(self) -> Seq<Seq<char>> {
        match self {
            ReadView::Directory(v) => lossy_all(v),
            _ => Seq::empty(),
        }
    }
}

/// A value that is an integer.
pub trait Integer: Copy {
    spec fn value(self) -> int;

    fn to_double(self) -> (r: u64)
        ensures
            r == double_of_int(self.value()),
    ;
}

impl Integer for i8 {
    open spec fn value(self) -> int {
        self as int
    }

    fn to_double(self) -> (r: u64) {
        from_int(self as i64)
    }
}

impl Integer for i16 {
    open spec fn value(self) -> int {
        self as int
    }

    fn to_double(self) -> (r: u64) {
        from_int(self as i64)
    }
}

impl Integer for i32 {
    open spec fn value(self) -> int {
        self as int
    }

    fn to_double(self) -> (r: u64) {
        from_int(self as i64)
    }
}

impl Integer for i64 {
    open spec fn value(self) -> int {
        self as int
    }

    fn to_double(self) -> (r: u64) {
        from_int(self)
    }
}

impl Integer for u8 {
    open spec fn value(self) -> int {
        self as int
    }

    fn to_double(self) -> (r: u64) {
        from_uint(self as u64)
    }
}

impl Integer for u16 {
    open spec fn value(self) -> int {
        self as int
    }

    fn to_double(self) -> (r: u64) {
        from_uint(self as u64)
    }
}

impl Integer for u32 {
    open spec fn value(self) -> int {
        self as int
    }

    fn to_double(self) -> (r: u64) {
        from_uint(self as u64)
    }
}

impl Integer for u64 {
    open spec fn value(self) -> int {
        self as int
    }

    fn to_double(self) -> (r: u64) {
        from_uint(self)
    }
}

fn to_doubles<T: Integer>(v: &Vec<T>) -> (r: Vec<u64>)
    ensures
        r@ == doubles_of(v@.map_values(|x: T| x.value())),
{
    let mut out: Vec<u64> = Vec::new();
    for i in 0..v.len()
        invariant
            out@.len() == i,
            forall|k: int| 0 <= k < i ==> out@[k] == double_of_int(v@[k].value()),
    {
        out.push(v[i].to_double());
    }
    assert(out@ =~= doubles_of(v@.map_values(|x: T| x.value())));
    out
}

impl ReadResult {
    /// The values as doubles; none for a directory or a link.
    pub fn to_f64_vec(&self) -> (r: Vec<u64>)
        ensures
            r@ == self@.doubles(),
    {
        match self {
            ReadResult::I8(v) => {
                let r = to_doubles(v);
                assert(r@ =~= self@.doubles());
                r
            },
            ReadResult::I16(v) => {
                let r = to_doubles(v);
                assert(r@ =~= self@.doubles());
                r
            },
            ReadResult::I32(v) => {
                let r = to_doubles(v);
                assert(r@ =~= self@.doubles());
                r
            },
            ReadResult::I64(v) => {
                let r = to_doubles(v);
                assert(r@ =~= self@.doubles());
                r
            },
            ReadResult::U8(v) => {
                let r = to_doubles(v);
                assert(r@ =~= self@.doubles());
                r
            },
            ReadResult::U16(v) => {
                let r = to_doubles(v);
                assert(r@ =~= self@.doubles());
                r
            },
            ReadResult::U32(v) => {
                let r = to_doubles(v);
                assert(r@ =~= self@.doubles());
                r
            },
            ReadResult::U64(v) => {
                let r = to_doubles(v);
                assert(r@ =~= self@.doubles());
                r
            },
            ReadResult::F32(v) => {
                let mut out: Vec<u64> = Vec::new();
                for i in 0..v.len()
                    invariant
                        out@.len() == i,
                        forall|k: int| 0 <= k < i ==> out@[k] == widened(v@[k]) as u64,
                {
                    out.push(widen(v[i]));
                }
                assert(out@ =~= self@.doubles());
                out
            },
            ReadResult::F64(v) => slice_to_vec(v.as_slice()),
            ReadResult::Directory(_) | ReadResult::Link(_) => Vec::new(),
        }
    }

    /// The names of a directory, as text; none for a dataset.
    pub fn keys(&self) -> (r: Vec<String>)
        ensures
            texts(r@) == self@.key_texts(),
    {
        match self {
            ReadResult::Directory(keys) => {
                let mut out: Vec<String> = Vec::new();
                for i in 0..keys.len()
                    invariant
                        out@.len() == i,
                        forall|k: int| 0 <= k < i ==> (#[trigger] out@[k])@ == text_of(keys@[k]@),
                {
                    out.push(decode_lossy(keys[i].as_slice()));
                }
                assert(texts(out@) =~= self@.key_texts());
                out
            },
            _ => {
                let out: Vec<String> = Vec::new();
                assert(texts(out@) =~= self@.key_texts());
                out
            },
        }
    }
}

/// Bytes per value of a type.
pub open spec fn elem_size(t: u8) -> nat {
    if t == 2 || t == 6 {
        2
    } else if t == 3 || t == 7 || t == 9 {
        4
    } else if t == 4 || t == 8 || t == 10 {
        8
    } else {
        1
    }
}

/// Bytes per value of a type.
pub fn type_elem_size(t: u8) -> (r: usize)
    ensures
        r == elem_size(t),
{
    match t {
        1 | 5 | 11 => 1,
        2 | 6 => 2,
        3 | 7 | 9 => 4,
        4 | 8 | 10 => 8,
        _ => 1,
    }
}

/// The `count` unsigned numbers of `size` bytes in `b`.
pub open spec fn uints(b: Seq<u8>, count: nat, size: nat, le: bool) -> Seq<nat> {
    Seq::new(count, |i: int| uint_at(b, i * size, size, le))
}

/// The values of a dataset of type `t` in the bytes `b`, which are as many as they
/// need.
pub open spec fn decoded(b: Seq<u8>, t: u8, count: nat, le: bool) -> ReadView {
    let u = uints(b, count, elem_size(t), le);
    if t == 1 {
        ReadView::I8(Seq::new(count, |i: int| signed(b[i] as nat, 1) as i8))
    } else if t == 2 {
        ReadView::I16(Seq::new(count, |i: int| signed(u[i], 2) as i16))
    } else if t == 3 {
        ReadView::I32(Seq::new(count, |i: int| signed(u[i], 4) as i32))
    } else if t == 4 {
        ReadView::I64(Seq::new(count, |i: int| signed(u[i], 8) as i64))
    } else if t == 6 {
        ReadView::U16(Seq::new(count, |i: int| u[i] as u16))
    } else if t == 7 {
        ReadView::U32(Seq::new(count, |i: int| u[i] as u32))
    } else if t == 8 {
        ReadView::U64(Seq::new(count, |i: int| u[i] as u64))
    } else if t == 9 {
        ReadView::F32(Seq::new(count, |i: int| u[i] as u32))
    } else if t == 10 {
        ReadView::F64(Seq::new(count, |i: int| u[i] as u64))
    } else if t == 11 && count > 0 {
        ReadView::Link(b)
    } else {
        ReadView::U8(b)
    }
}

proof fn lemma_pow256_small()
    ensures
        crate::le::pow256(1) == 256,
        crate::le::pow256(2) == 65536,
        crate::le::pow256(4) == 0x1_0000_0000,
        crate::le::pow256(8) == 0x1_0000_0000_0000_0000,
{
    crate::le::lemma_pow256_values();
    reveal_with_fuel(crate::le::pow256, 3);
}

/// The number at place `i` of `b`.
fn uint_from(b: &[u8], i: usize, count: usize, size: u8, le: bool) -> (r: u64)
    requires
        is_field_size(size as int),
        i < count,
        b@.len() == count * size,
    ensures
        r == uint_at(b@, i * size, size as nat, le),
        r < crate::le::pow256(size as nat),
{
    let total: usize = b.len();
    assert(0 <= i * size && i * size + size <= count * size) by (nonlinear_arith)
        requires
            i < count,
    ;
    assert(i * size + size <= total);
    let at: usize = i * size as usize;
    let part: &[u8] = slice_subrange(b, at, at + size as usize);
    proof {
        assert forall|j: int| 0 <= j < size implies #[trigger] part@[0 + j] == b@[at + j] by {}
        lemma_uint_same(part@, 0, b@, at as int, size as nat, le);
        lemma_uint_bound(b@, at as int, size as nat, le);
    }
    match read_int(part, size, le) {
        Some(v) => v,
        None => 0,
    }
}

fn read_u16s(b: &[u8], count: usize, le: bool) -> (r: Vec<u16>)
    requires
        b@.len() == count * 2,
    ensures
        r@ == Seq::new(count as nat, |i: int| uints(b@, count as nat, 2, le)[i] as u16),
{
    let mut out: Vec<u16> = Vec::new();
    proof {
        lemma_pow256_small();
    }
    for i in 0..count
        invariant
            b@.len() == count * 2,
            crate::le::pow256(2) == 65536,
            out@.len() == i,
            forall|k: int| 0 <= k < i ==> out@[k] == uint_at(b@, k * 2, 2, le) as u16,
    {
        out.push(uint_from(b, i, count, 2, le) as u16);
    }
    assert(out@ =~= Seq::new(count as nat, |i: int| uints(b@, count as nat, 2, le)[i] as u16));
    out
}

fn read_u32s(b: &[u8], count: usize, le: bool) -> (r: Vec<u32>)
    requires
        b@.len() == count * 4,
    ensures
        r@ == Seq::new(count as nat, |i: int| uints(b@, count as nat, 4, le)[i] as u32),
{
    let mut out: Vec<u32> = Vec::new();
    proof {
        lemma_pow256_small();
    }
    for i in 0..count
        invariant
            b@.len() == count * 4,
            crate::le::pow256(4) == 0x1_0000_0000,
            out@.len() == i,
            forall|k: int| 0 <= k < i ==> out@[k] == uint_at(b@, k * 4, 4, le) as u32,
    {
        out.push(uint_from(b, i, count, 4, le) as u32);
    }
    assert(out@ =~= Seq::new(count as nat, |i: int| uints(b@, count as nat, 4, le)[i] as u32));
    out
}

fn read_u64s(b: &[u8], count: usize, le: bool) -> (r: Vec<u64>)
    requires
        b@.len() == count * 8,
    ensures
        r@ == Seq::new(count as nat, |i: int| uints(b@, count as nat, 8, le)[i] as u64),
{
    let mut out: Vec<u64> = Vec::new();
    for i in 0..count
        invariant
            b@.len() == count * 8,
            out@.len() == i,
            forall|k: int| 0 <= k < i ==> out@[k] == uint_at(b@, k * 8, 8, le) as u64,
    {
        out.push(uint_from(b, i, count, 8, le));
    }
    assert(out@ =~= Seq::new(count as nat, |i: int| uints(b@, count as nat, 8, le)[i] as u64));
    out
}

fn read_i8s(b: &[u8], count: usize) -> (r: Vec<i8>)
    requires
        b@.len() == count,
    ensures
        r@ == Seq::new(count as nat, |i: int| signed(b@[i] as nat, 1) as i8),
{
    let mut out: Vec<i8> = Vec::new();
    proof {
        lemma_pow256_small();
    }
    for i in 0..count
        invariant
            b@.len() == count,
            crate::le::pow256(1) == 256,
            out@.len() == i,
            forall|k: int| 0 <= k < i ==> out@[k] == signed(b@[k] as nat, 1) as i8,
    {
        let x: u8 = b[i];
        let y: i8 = if x < 0x80 { x as i8 } else { (x as i16 - 0x100) as i8 };
        out.push(y);
    }
    assert(out@ =~= Seq::new(count as nat, |i: int| signed(b@[i] as nat, 1) as i8));
    out
}

fn read_i16s(b: &[u8], count: usize, le: bool) -> (r: Vec<i16>)
    requires
        b@.len() == count * 2,
    ensures
        r@ == Seq::new(count as nat, |i: int| signed(uints(b@, count as nat, 2, le)[i], 2) as i16),
{
    let mut out: Vec<i16> = Vec::new();
    proof {
        lemma_pow256_small();
    }
    for i in 0..count
        invariant
            b@.len() == count * 2,
            crate::le::pow256(2) == 65536,
            out@.len() == i,
            forall|k: int| 0 <= k < i ==> out@[k] == signed(uint_at(b@, k * 2, 2, le), 2) as i16,
    {
        let x: u64 = uint_from(b, i, count, 2, le);
        let y: i16 = if x < 0x8000 { x as i16 } else { (x as i32 - 0x1_0000) as i16 };
        out.push(y);
    }
    assert(out@ =~= Seq::new(
        count as nat,
        |i: int| signed(uints(b@, count as nat, 2, le)[i], 2) as i16,
    ));
    out
}

fn read_i32s(b: &[u8], count: usize, le: bool) -> (r: Vec<i32>)
    requires
        b@.len() == count * 4,
    ensures
        r@ == Seq::new(count as nat, |i: int| signed(uints(b@, count as nat, 4, le)[i], 4) as i32),
{
    let mut out: Vec<i32> = Vec::new();
    proof {
        lemma_pow256_small();
    }
    for i in 0..count
        invariant
            b@.len() == count * 4,
            crate::le::pow256(4) == 0x1_0000_0000,
            out@.len() == i,
            forall|k: int| 0 <= k < i ==> out@[k] == signed(uint_at(b@, k * 4, 4, le), 4) as i32,
    {
        let x: u64 = uint_from(b, i, count, 4, le);
        out.push(to_i32(x as u32));
    }
    assert(out@ =~= Seq::new(
        count as nat,
        |i: int| signed(uints(b@, count as nat, 4, le)[i], 4) as i32,
    ));
    out
}

fn read_i64s(b: &[u8], count: usize, le: bool) -> (r: Vec<i64>)
    requires
        b@.len() == count * 8,
    ensures
        r@ == Seq::new(count as nat, |i: int| signed(uints(b@, count as nat, 8, le)[i], 8) as i64),
{
    let mut out: Vec<i64> = Vec::new();
    for i in 0..count
        invariant
            b@.len() == count * 8,
            out@.len() == i,
            forall|k: int| 0 <= k < i ==> out@[k] == signed(uint_at(b@, k * 8, 8, le), 8) as i64,
    {
        out.push(to_i64(uint_from(b, i, count, 8, le)));
    }
    assert(out@ =~= Seq::new(
        count as nat,
        |i: int| signed(uints(b@, count as nat, 8, le)[i], 8) as i64,
    ));
    out
}

/// The values of a dataset. A dataset without values is empty bytes, unless its
/// type is a number's.
fn read_typed(b: &[u8], t: u8, count: usize, le: bool) -> (r: ReadResult)
    requires
        b@.len() == count * elem_size(t),
    ensures
        r@ == decoded(b@, t, count as nat, le),
{
    let r: ReadResult = if t == 1 {
        ReadResult::I8(read_i8s(b, count))
    } else if t == 2 {
        ReadResult::I16(read_i16s(b, count, le))
    } else if t == 3 {
        ReadResult::I32(read_i32s(b, count, le))
    } else if t == 4 {
        ReadResult::I64(read_i64s(b, count, le))
    } else if t == 6 {
        ReadResult::U16(read_u16s(b, count, le))
    } else if t == 7 {
        ReadResult::U32(read_u32s(b, count, le))
    } else if t == 8 {
        ReadResult::U64(read_u64s(b, count, le))
    } else if t == 9 {
        ReadResult::F32(read_u32s(b, count, le))
    } else if t == 10 {
        ReadResult::F64(read_u64s(b, count, le))
    } else if t == 11 && count > 0 {
        ReadResult::Link(slice_to_vec(b))
    } else {
        ReadResult::U8(slice_to_vec(b))
    };
    r
}

/// What reading a dataset gives: its values, which stand behind the header and the
/// name of its record. A dataset without values is not looked for.
pub open spec fn leaf_read(meta: SymMeta, files: Seq<Diskfile>) -> Result<ReadView, LsdaFault> {
    let f = files[meta.file_index as int];
    let start = meta.offset + f.comp2 + meta.name_len;
    let end = start + meta.length * elem_size(meta.type_);
    if meta.file_index >= files.len() {
        Err(LsdaFault::SymbolNotFound("file index out of bounds"@))
    } else if meta.length == 0 {
        Ok(decoded(Seq::empty(), meta.type_, 0, true))
    } else if end > f.map@.len() {
        Err(LsdaFault::Conversion("symbol data past end of file"@))
    } else {
        Ok(
            decoded(
                f.map@.subrange(start, end),
                meta.type_,
                meta.length as nat,
                f.is_little_endian,
            ),
        )
    }
}

/// What reading a node gives: the names in a directory, or the values of a dataset.
pub open spec fn node_read(n: SymNode, files: Seq<Diskfile>) -> Result<ReadView, LsdaFault> {
    match n {
        SymNode::Dir(m) => Ok(ReadView::Directory(names(m@))),
        SymNode::Leaf(meta) => leaf_read(meta, files),
    }
}

fn read_leaf(meta: &SymMeta, files: &Vec<Diskfile>) -> (r: Result<ReadResult, LsdaError>)
    ensures
        match r {
            Ok(v) => leaf_read(*meta, files@) == Ok::<ReadView, LsdaFault>(v@),
            Err(e) => leaf_read(*meta, files@) == Err::<ReadView, LsdaFault>(e@),
        },
{
    if meta.file_index >= files.len() {
        return Err(LsdaError::SymbolNotFound(String::from_str("file index out of bounds")));
    }
    let file = &files[meta.file_index];
    if meta.length == 0 {
        let empty: Vec<u8> = Vec::new();
        assert(empty@ =~= Seq::<u8>::empty());
        assert(empty@.len() == 0 * elem_size(meta.type_));
        return Ok(read_typed(empty.as_slice(), meta.type_, 0, true));
    }
    let size: usize = type_elem_size(meta.type_);
    let start: u128 = meta.offset as u128 + file.comp2 as u128 + meta.name_len as u128;
    assert(meta.length * size <= u64::MAX * 8) by (nonlinear_arith)
        requires
            size <= 8,
            meta.length <= u64::MAX,
    ;
    let end: u128 = start + meta.length as u128 * size as u128;
    assert(meta.length as u128 * size as u128 == meta.length * elem_size(meta.type_));
    if end > file.map.len() as u128 {
        return Err(LsdaError::Conversion(String::from_str("symbol data past end of file")));
    }
    assert(meta.length <= meta.length * size) by (nonlinear_arith)
        requires
            size >= 1,
    ;
    let part: &[u8] = slice_subrange(file.map.as_slice(), start as usize, end as usize);
    Ok(read_typed(part, meta.type_, meta.length as usize, file.is_little_endian))
}

impl SymNode<SymMeta> {
    /// Reads the node: the names in a directory, in order, or the values of a
    /// dataset.
    pub fn read(&self, files: &Vec<Diskfile>) -> (r: Result<ReadResult, LsdaError>)
        ensures
            match r {
                Ok(v) => node_read(*self, files@) == Ok::<ReadView, LsdaFault>(v@),
                Err(e) => node_read(*self, files@) == Err::<ReadView, LsdaFault>(e@),
            },
    {
        match self {
            SymNode::Dir(m) => {
                let mut out: Vec<Vec<u8>> = Vec::new();
                for i in 0..m.len()
                    invariant
                        out@.len() == i,
                        forall|k: int| 0 <= k < i ==> (#[trigger] out@[k])@ == m@[k].0@,
                {
                    out.push(slice_to_vec(m[i].0.as_slice()));
                }
                assert(byte_views(out@) =~= names(m@));
                Ok(ReadResult::Directory(out))
            },
            SymNode::Leaf(meta) => read_leaf(meta, files),
        }
    }
}

} // verus!
