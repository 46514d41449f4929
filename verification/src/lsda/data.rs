//! Datasets as they are written.

use crate::le::{
    byte_of, from_i64, le_bytes, lemma_le_at_of_bytes, lemma_pow256_values, lemma_signed_wrap,
    pow256, push_u32, push_u64, signed, wrap_to,
};
use crate::lsda::endian::uint_at;
use crate::lsda::symbol::{decoded, elem_size, uints, ReadResult, ReadView};
use vstd::prelude::*;

verus! {

/// A typed dataset. Floating point values are bit patterns.
#[derive(Debug, Clone, PartialEq)]
pub enum Data {
    I8(Vec<i8>),
    I16(Vec<i16>),
    I32(Vec<i32>),
    I64(Vec<i64>),
    U8(Vec<u8>),
    U16(Vec<u16>),
    U32(Vec<u32>),
    U64(Vec<u64>),
    F32(Vec<u32>),
    F64(Vec<u64>),
    /// Text, stored as its bytes.
    Str(String),
}

/// The values of a dataset.
pub enum DataView {
    I8(Seq<i8>),
    I16(Seq<i16>),
    I32(Seq<i32>),
    I64(Seq<i64>),
    U8(Seq<u8>),
    U16(Seq<u16>),
    U32(Seq<u32>),
    U64(Seq<u64>),
    F32(Seq<u32>),
    F64(Seq<u64>),
    Str(Seq<char>),
}

impl View for Data {
    type V = DataView;

    open spec fn view(&self) -> DataView {
        match *self {
            Data::I8(v) => DataView::I8(v@),
            Data::I16(v) => DataView::I16(v@),
            Data::I32(v) => DataView::I32(v@),
            Data::I64(v) => DataView::I64(v@),
            Data::U8(v) => DataView::U8(v@),
            Data::U16(v) => DataView::U16(v@),
            Data::U32(v) => DataView::U32(v@),
            Data::U64(v) => DataView::U64(v@),
            Data::F32(v) => DataView::F32(v@),
            Data::F64(v) => DataView::F64(v@),
            Data::Str(s) => DataView::Str(s@),
        }
    }
}

/// The little-endian bytes of numbers of `n` bytes each.
pub open spec fn le_run(s: Seq<nat>, n: nat) -> Seq<u8>
    decreases s.len(),
{
    if s.len() == 0 {
        Seq::empty()
    } else {
        le_run(s.drop_last(), n) + le_bytes(s.last(), n)
    }
}

impl DataView {
    /// The type code in the records of the dataset. Text is an array of bytes:
    /// there is no type for it.
    pub open spec fn type_code(self) -> u8 {
        match self {
            DataView::I8(_) => 1,
            DataView::I16(_) => 2,
            DataView::I32(_) => 3,
            DataView::I64(_) => 4,
            DataView::U8(_) => 5,
            DataView::U16(_) => 6,
            DataView::U32(_) => 7,
            DataView::U64(_) => 8,
            DataView::F32(_) => 9,
            DataView::F64(_) => 10,
            DataView::Str(_) => 1,
        }
    }

    /// The values, each as an unsigned number of its size.
    pub open spec fn numbers(self) -> Seq<nat> {
        match self {
            DataView::I8(v) => v.map_values(|x: i8| wrap_to(x as int, 1)),
            DataView::I16(v) => v.map_values(|x: i16| wrap_to(x as int, 2)),
            DataView::I32(v) => v.map_values(|x: i32| wrap_to(x as int, 4)),
            DataView::I64(v) => v.map_values(|x: i64| wrap_to(x as int, 8)),
            DataView::U8(v) => v.map_values(|x: u8| x as nat),
            DataView::U16(v) => v.map_values(|x: u16| x as nat),
            DataView::U32(v) => v.map_values(|x: u32| x as nat),
            DataView::U64(v) => v.map_values(|x: u64| x as nat),
            DataView::F32(v) => v.map_values(|x: u32| x as nat),
            DataView::F64(v) => v.map_values(|x: u64| x as nat),
            DataView::Str(s) => vstd::utf8::encode_utf8(s).map_values(|x: u8| x as nat),
        }
    }

    /// The number of values; for text, of bytes.
    pub open spec fn count(self) -> nat {
        self.numbers().len()
    }

    /// The bytes of the values, little-endian.
    pub open spec fn bytes(self) -> Seq<u8> {
        le_run(self.numbers(), elem_size(self.type_code()))
    }

    /// What a read of the dataset gives: text comes back as signed bytes.
    pub open spec fn as_read(self) -> ReadView {
        match self {
            DataView::I8(v) => ReadView::I8(v),
            DataView::I16(v) => ReadView::I16(v),
            DataView::I32(v) => ReadView::I32(v),
            DataView::I64(v) => ReadView::I64(v),
            DataView::U8(v) => ReadView::U8(v),
            DataView::U16(v) => ReadView::U16(v),
            DataView::U32(v) => ReadView::U32(v),
            DataView::U64(v) => ReadView::U64(v),
            DataView::F32(v) => ReadView::F32(v),
            DataView::F64(v) => ReadView::F64(v),
            DataView::Str(s) => ReadView::I8(
                vstd::utf8::encode_utf8(s).map_values(|x: u8| signed(x as nat, 1) as i8),
            ),
        }
    }
}

/// The dataset that a read result becomes; a link becomes its bytes.
pub open spec fn data_of(r: ReadView) -> DataView {
    match r {
        ReadView::I8(v) => DataView::I8(v),
        ReadView::I16(v) => DataView::I16(v),
        ReadView::I32(v) => DataView::I32(v),
        ReadView::I64(v) => DataView::I64(v),
        ReadView::U8(v) => DataView::U8(v),
        ReadView::U16(v) => DataView::U16(v),
        ReadView::U32(v) => DataView::U32(v),
        ReadView::U64(v) => DataView::U64(v),
        ReadView::F32(v) => DataView::F32(v),
        ReadView::F64(v) => DataView::F64(v),
        ReadView::Link(v) => DataView::U8(v),
        ReadView::Directory(_) => DataView::U8(Seq::empty()),
    }
}

/// A value that is written as an unsigned number of some bytes.
pub trait Packed: Copy {
    spec fn number(self) -> nat;

    spec fn size() -> nat;

    fn push_to(self, buf: &mut Vec<u8>)
        ensures
            final(buf)@ == old(buf)@ + le_bytes(self.number(), Self::size()),
    ;
}

proof fn lemma_small_bytes()
    ensures
        pow256(0) == 1,
        pow256(1) == 256,
        pow256(2) == 65536,
{
    reveal_with_fuel(pow256, 3);
}

fn push_byte(buf: &mut Vec<u8>, x: u8)
    ensures
        final(buf)@ == old(buf)@ + le_bytes(x as nat, 1),
{
    let ghost start = buf@;
    buf.push(x);
    proof {
        lemma_small_bytes();
        assert(le_bytes(x as nat, 1) =~= seq![x]);
        assert(buf@ =~= start + le_bytes(x as nat, 1));
    }
}

fn push_u16(buf: &mut Vec<u8>, x: u16)
    ensures
        final(buf)@ == old(buf)@ + le_bytes(x as nat, 2),
{
    let ghost start = buf@;
    let lo: u8 = (x % 256) as u8;
    let hi: u8 = (x / 256) as u8;
    buf.push(lo);
    buf.push(hi);
    proof {
        lemma_small_bytes();
        let v = x as nat;
        assert(v / 1 == v);
        assert(byte_of(v, 0) == lo);
        assert(v / 256 < 256);
        assert(byte_of(v, 1) == hi);
        assert(le_bytes(x as nat, 2) =~= seq![lo, hi]);
        assert(buf@ =~= start + le_bytes(x as nat, 2));
    }
}

impl Packed for u8 {
    open spec fn number(self) -> nat {
        self as nat
    }

    open spec fn size() -> nat {
        1
    }

    fn push_to(self, buf: &mut Vec<u8>) {
        push_byte(buf, self);
    }
}

impl Packed for u16 {
    open spec fn number(self) -> nat {
        self as nat
    }

    open spec fn size() -> nat {
        2
    }

    fn push_to(self, buf: &mut Vec<u8>) {
        push_u16(buf, self);
    }
}

impl Packed for u32 {
    open spec fn number(self) -> nat {
        self as nat
    }

    open spec fn size() -> nat {
        4
    }

    fn push_to(self, buf: &mut Vec<u8>) {
        push_u32(buf, self);
    }
}

impl Packed for u64 {
    open spec fn number(self) -> nat {
        self as nat
    }

    open spec fn size() -> nat {
        8
    }

    fn push_to(self, buf: &mut Vec<u8>) {
        push_u64(buf, self);
    }
}

impl Packed for i8 {
    open spec fn number(self) -> nat {
        wrap_to(self as int, 1)
    }

    open spec fn size() -> nat {
        1
    }

    fn push_to(self, buf: &mut Vec<u8>) {
        proof {
            lemma_small_bytes();
        }
        let x: u8 = if self >= 0 { self as u8 } else { (self as i16 + 0x100) as u8 };
        push_byte(buf, x);
    }
}

impl Packed for i16 {
    open spec fn number(self) -> nat {
        wrap_to(self as int, 2)
    }

    open spec fn size() -> nat {
        2
    }

    fn push_to(self, buf: &mut Vec<u8>) {
        proof {
            lemma_small_bytes();
        }
        let x: u16 = if self >= 0 { self as u16 } else { (self as i32 + 0x1_0000) as u16 };
        push_u16(buf, x);
    }
}

impl Packed for i32 {
    open spec fn number(self) -> nat {
        wrap_to(self as int, 4)
    }

    open spec fn size() -> nat {
        4
    }

    fn push_to(self, buf: &mut Vec<u8>) {
        proof {
            lemma_pow256_values();
        }
        let x: u32 = if self >= 0 { self as u32 } else { (self as i64 + 0x1_0000_0000) as u32 };
        push_u32(buf, x);
    }
}

impl Packed for i64 {
    open spec fn number(self) -> nat {
        wrap_to(self as int, 8)
    }

    open spec fn size() -> nat {
        8
    }

    fn push_to(self, buf: &mut Vec<u8>) {
        push_u64(buf, from_i64(self));
    }
}

fn pack<T: Packed>(v: &[T]) -> (r: Vec<u8>)
    ensures
        r@ == le_run(v@.map_values(|x: T| x.number()), T::size()),
{
    let mut out: Vec<u8> = Vec::new();
    let ghost all = v@.map_values(|x: T| x.number());
    assert(all.take(0) =~= Seq::<nat>::empty());
    for i in 0..v.len()
        invariant
            all == v@.map_values(|x: T| x.number()),
            out@ == le_run(all.take(i as int), T::size()),
    {
        v[i].push_to(&mut out);
        assert(all.take(i + 1).drop_last() =~= all.take(i as int));
    }
    assert(all.take(v@.len() as int) =~= all);
    out
}

impl Data {
    /// The type code in the records of the dataset.
    pub fn type_code(&self) -> (r: u8)
        ensures
            r == self@.type_code(),
    {
        match self {
            Data::I8(_) => 1,
            Data::I16(_) => 2,
            Data::I32(_) => 3,
            Data::I64(_) => 4,
            Data::U8(_) => 5,
            Data::U16(_) => 6,
            Data::U32(_) => 7,
            Data::U64(_) => 8,
            Data::F32(_) => 9,
            Data::F64(_) => 10,
            Data::Str(_) => 1,
        }
    }

    /// The number of values; for text, of bytes.
    pub fn count(&self) -> (r: usize)
        ensures
            r == self@.count(),
    {
        match self {
            Data::I8(v) => v.len(),
            Data::I16(v) => v.len(),
            Data::I32(v) => v.len(),
            Data::I64(v) => v.len(),
            Data::U8(v) => v.len(),
            Data::U16(v) => v.len(),
            Data::U32(v) => v.len(),
            Data::U64(v) => v.len(),
            Data::F32(v) => v.len(),
            Data::F64(v) => v.len(),
            Data::Str(s) => s.as_str().as_bytes().len(),
        }
    }

    /// The bytes of the values, little-endian.
    pub fn to_le_bytes(&self) -> (r: Vec<u8>)
        ensures
            r@ == self@.bytes(),
    {
        let r: Vec<u8> = match self {
            Data::I8(v) => {
                assert(self@.numbers() =~= v@.map_values(|x: i8| x.number()));
                pack(v.as_slice())
            },
            Data::I16(v) => {
                assert(self@.numbers() =~= v@.map_values(|x: i16| x.number()));
                pack(v.as_slice())
            },
            Data::I32(v) => {
                assert(self@.numbers() =~= v@.map_values(|x: i32| x.number()));
                pack(v.as_slice())
            },
            Data::I64(v) => {
                assert(self@.numbers() =~= v@.map_values(|x: i64| x.number()));
                pack(v.as_slice())
            },
            Data::U8(v) => {
                assert(self@.numbers() =~= v@.map_values(|x: u8| x.number()));
                pack(v.as_slice())
            },
            Data::U16(v) => {
                assert(self@.numbers() =~= v@.map_values(|x: u16| x.number()));
                pack(v.as_slice())
            },
            Data::U32(v) => {
                assert(self@.numbers() =~= v@.map_values(|x: u32| x.number()));
                pack(v.as_slice())
            },
            Data::U64(v) => {
                assert(self@.numbers() =~= v@.map_values(|x: u64| x.number()));
                pack(v.as_slice())
            },
            Data::F32(v) => {
                assert(self@.numbers() =~= v@.map_values(|x: u32| x.number()));
                pack(v.as_slice())
            },
            Data::F64(v) => {
                assert(self@.numbers() =~= v@.map_values(|x: u64| x.number()));
                pack(v.as_slice())
            },
            Data::Str(s) => {
                let b: &[u8] = s.as_str().as_bytes();
                assert(self@.numbers() =~= b@.map_values(|x: u8| x.number()));
                pack(b)
            },
        };
        r
    }

    /// The dataset that a read result becomes; a link becomes its bytes.
    pub fn from_read(r: ReadResult) -> (d: Self)
        ensures
            d@ == data_of(r@),
    {
        match r {
            ReadResult::I8(v) => Data::I8(v),
            ReadResult::I16(v) => Data::I16(v),
            ReadResult::I32(v) => Data::I32(v),
            ReadResult::I64(v) => Data::I64(v),
            ReadResult::U8(v) => Data::U8(v),
            ReadResult::U16(v) => Data::U16(v),
            ReadResult::U32(v) => Data::U32(v),
            ReadResult::U64(v) => Data::U64(v),
            ReadResult::F32(v) => Data::F32(v),
            ReadResult::F64(v) => Data::F64(v),
            ReadResult::Link(v) => Data::U8(v),
            ReadResult::Directory(_) => Data::U8(Vec::new()),
        }
    }
}

/// A run of numbers, one by one.
pub proof fn lemma_le_run(s: Seq<nat>, n: nat)
    ensures
        le_run(s, n).len() == s.len() * n,
        forall|i: int, j: int|
            #![trigger le_run(s, n)[i * n + j]]
            0 <= i < s.len() && 0 <= j < n ==> le_run(s, n)[i * n + j] == byte_of(s[i], j as nat),
    decreases s.len(),
{
    if s.len() > 0 {
        let m = s.len() - 1;
        let a = le_run(s.drop_last(), n);
        lemma_le_run(s.drop_last(), n);
        assert(s.len() * n == m * n + n) by (nonlinear_arith)
            requires
                s.len() == m + 1,
        ;
        assert forall|i: int, j: int|
            #![trigger le_run(s, n)[i * n + j]]
            0 <= i < s.len() && 0 <= j < n implies le_run(s, n)[i * n + j] == byte_of(
            s[i],
            j as nat,
        ) by {
            if i < m {
                assert(0 <= i * n + j < m * n) by (nonlinear_arith)
                    requires
                        0 <= i < m,
                        0 <= j < n,
                ;
                assert(le_run(s, n)[i * n + j] == a[i * n + j]);
            } else {
                assert(i == m);
                assert(le_run(s, n)[i * n + j] == le_bytes(s.last(), n)[j]);
            }
        }
    } else {
        assert(0 * n == 0);
    }
}

/// The numbers of a run are read back.
proof fn lemma_run_reads(s: Seq<nat>, n: nat)
    requires
        forall|i: int| 0 <= i < s.len() ==> #[trigger] s[i] < pow256(n),
    ensures
        uints(le_run(s, n), s.len(), n, true) == s,
{
    lemma_le_run(s, n);
    let b = le_run(s, n);
    assert forall|i: int| 0 <= i < s.len() implies uint_at(b, i * n, n, true) == #[trigger] s[i] by {
        assert forall|j: int| 0 <= j < n implies #[trigger] b[i * n + j] == byte_of(
            s[i],
            j as nat,
        ) by {
            assert(b[i * n + j] == le_run(s, n)[i * n + j]);
        }
        lemma_le_at_of_bytes(b, i * n, s[i], n);
        vstd::arithmetic::div_mod::lemma_small_mod(s[i], pow256(n));
    }
    assert(uints(b, s.len(), n, true) =~= s);
}

/// What was written as a dataset is read as its values: numbers as they were, text
/// as its bytes.
pub proof fn law_data_reads_back(d: DataView)
    ensures
        d.bytes().len() == d.count() * elem_size(d.type_code()),
        decoded(d.bytes(), d.type_code(), d.count(), true) == d.as_read(),
{
    let s = d.numbers();
    let n = elem_size(d.type_code());
    lemma_small_bytes();
    lemma_pow256_values();
    lemma_le_run(s, n);
    assert forall|i: int| 0 <= i < s.len() implies #[trigger] s[i] < pow256(n) by {}
    lemma_run_reads(s, n);
    let u = uints(d.bytes(), d.count(), n, true);
    assert(u == s);
    let r = decoded(d.bytes(), d.type_code(), d.count(), true);
    match d {
        DataView::I8(v) => {
            assert forall|i: int| 0 <= i < v.len() implies signed(
                d.bytes()[i] as nat,
                1,
            ) as i8 == #[trigger] v[i] by {
                assert(i * 1 + 0 == i);
                assert(le_run(s, 1)[i * 1 + 0] == byte_of(s[i], 0));
                lemma_signed_wrap(v[i] as int, 1);
            }
            assert(r->I8_0 =~= v);
        },
        DataView::I16(v) => {
            assert forall|i: int| 0 <= i < v.len() implies signed(u[i], 2) as i16
                == #[trigger] v[i] by {
                lemma_signed_wrap(v[i] as int, 2);
            }
            assert(r->I16_0 =~= v);
        },
        DataView::I32(v) => {
            assert forall|i: int| 0 <= i < v.len() implies signed(u[i], 4) as i32
                == #[trigger] v[i] by {
                lemma_signed_wrap(v[i] as int, 4);
            }
            assert(r->I32_0 =~= v);
        },
        DataView::I64(v) => {
            assert forall|i: int| 0 <= i < v.len() implies signed(u[i], 8) as i64
                == #[trigger] v[i] by {
                lemma_signed_wrap(v[i] as int, 8);
            }
            assert(r->I64_0 =~= v);
        },
        DataView::U8(v) => {
            assert forall|i: int| 0 <= i < v.len() implies d.bytes()[i] == #[trigger] v[i] by {
                assert(i * 1 + 0 == i);
                assert(le_run(s, 1)[i * 1 + 0] == byte_of(s[i], 0));
            }
            assert(r->U8_0 =~= v);
        },
        DataView::U16(v) => {
            assert(r->U16_0 =~= v);
        },
        DataView::U32(v) => {
            assert(r->U32_0 =~= v);
        },
        DataView::U64(v) => {
            assert(r->U64_0 =~= v);
        },
        DataView::F32(v) => {
            assert(r->F32_0 =~= v);
        },
        DataView::F64(v) => {
            assert(r->F64_0 =~= v);
        },
        DataView::Str(t) => {
            let e = vstd::utf8::encode_utf8(t);
            assert forall|i: int| 0 <= i < e.len() implies d.bytes()[i] == #[trigger] e[i] by {
                assert(i * 1 + 0 == i);
                assert(le_run(s, 1)[i * 1 + 0] == byte_of(s[i], 0));
            }
            assert(r->I8_0 =~= d.as_read()->I8_0);
        },
    }
}

} // verus!
