//! Databases as runs of words: encoding integers and floats to 4- or 8-byte
//! words, and reading them back.

use crate::d3plot::D3plotError;
use crate::ieee::{narrow, narrowed, widen, widened};
use crate::le::{
    byte_of, from_i64, le_at, le_bytes, lemma_le_at_of_bytes, lemma_pow256_values, low_u32,
    pow256, push_u32, push_u64, read_u32_le, read_u64_le, signed, to_i32, to_i64, wrap_to,
};
use vstd::prelude::*;

verus! {

/// One word to be stored: an integer, or the bit pattern of a double.
pub enum Word {
    Int(int),
    Float(u64),
}

/// The word sizes a database can have.
pub open spec fn is_word_size(ws: int) -> bool {
    ws == 4 || ws == 8
}

/// The unsigned number that stands for `w` in a word of `ws` bytes.
pub open spec fn word_nat(w: Word, ws: nat) -> nat {
    match w {
        Word::Int(v) => wrap_to(v, ws),
        Word::Float(b) => if ws == 4 { narrowed(b) } else { b as nat },
    }
}

/// The integers `s` as words.
pub open spec fn ints(s: Seq<i32>) -> Seq<Word> {
    Seq::new(s.len(), |i: int| Word::Int(s[i] as int))
}

/// The doubles `s` as words.
pub open spec fn floats(s: Seq<u64>) -> Seq<Word> {
    Seq::new(s.len(), |i: int| Word::Float(s[i]))
}

/// `n` times the double `v`.
pub open spec fn fill(n: nat, v: u64) -> Seq<Word> {
    Seq::new(n, |i: int| Word::Float(v))
}

/// `n` times the integer `v`.
pub open spec fn int_fill(n: nat, v: int) -> Seq<Word> {
    Seq::new(n, |i: int| Word::Int(v))
}

/// The bytes of the words `s`.
#[verifier::opaque]
pub open spec fn encode(ws: nat, s: Seq<Word>) -> Seq<u8> {
    Seq::new(
        s.len() * ws,
        |i: int| byte_of(word_nat(s[i / (ws as int)], ws), (i % (ws as int)) as nat),
    )
}

/// From word `k` on, the bytes `b` hold the words `s`.
#[verifier::opaque]
pub open spec fn holds_at(b: Seq<u8>, ws: nat, k: int, s: Seq<Word>) -> bool {
    &&& 0 <= k
    &&& (k + s.len()) * ws <= b.len()
    &&& forall|i: int|
        0 <= i < s.len() ==> #[trigger] le_at(b, (k + i) * ws, ws) == word_nat(s[i], ws)
}

/// The integer in the word at byte `off`; 0 when the bytes end before it does.
pub open spec fn int_at(b: Seq<u8>, off: int, ws: nat) -> int {
    if 0 <= off && off + ws <= b.len() {
        signed(le_at(b, off, ws), ws)
    } else {
        0
    }
}

/// The pattern of the double in the word at byte `off`, widened from single
/// precision in a 4-byte word; 0 when the bytes end before it does.
pub open spec fn float_at(b: Seq<u8>, off: int, ws: nat) -> u64 {
    if 0 <= off && off + ws <= b.len() {
        if ws == 4 {
            widened(le_at(b, off, 4) as u32) as u64
        } else {
            le_at(b, off, 8) as u64
        }
    } else {
        0
    }
}

/// The `n` doubles in the words from byte `off` on.
pub open spec fn floats_at(b: Seq<u8>, off: int, n: nat, ws: nat) -> Seq<u64> {
    Seq::new(n, |i: int| float_at(b, off + i * ws, ws))
}

/// What reading gives for a double `v` that was stored in a word of `ws` bytes:
/// itself, or the nearest single.
pub open spec fn stored(v: u64, ws: nat) -> u64 {
    if ws == 4 {
        widened(narrowed(v) as u32) as u64
    } else {
        v
    }
}

pub open spec fn stored_all(s: Seq<u64>, ws: nat) -> Seq<u64> {
    Seq::new(s.len(), |i: int| stored(s[i], ws))
}

pub proof fn lemma_narrowed_bound(b: u64)
    ensures
        narrowed(b) < 0x1_0000_0000,
{
    let man = b as nat % 0x10_0000_0000_0000;
    assert((man / 0x2000_0000) % 0x40_0000 < 0x40_0000);
}

pub proof fn lemma_word_nat_bound(w: Word, ws: nat)
    requires
        is_word_size(ws as int),
    ensures
        word_nat(w, ws) < pow256(ws),
{
    lemma_pow256_values();
    match w {
        Word::Int(v) => {
            assert(0 <= v % (pow256(ws) as int) < pow256(ws));
        },
        Word::Float(b) => {
            lemma_narrowed_bound(b);
        },
    }
}

pub proof fn lemma_encode_len(ws: nat, s: Seq<Word>)
    ensures
        encode(ws, s).len() == s.len() * ws,
{
    reveal(encode);
}

pub proof fn lemma_encode_empty(ws: nat)
    ensures
        encode(ws, Seq::<Word>::empty()) == Seq::<u8>::empty(),
{
    reveal(encode);
    assert(0 * ws == 0) by (nonlinear_arith);
    assert(encode(ws, Seq::<Word>::empty()) =~= Seq::<u8>::empty());
}

pub proof fn lemma_encode_add(ws: nat, a: Seq<Word>, b: Seq<Word>)
    requires
        is_word_size(ws as int),
    ensures
        encode(ws, a + b) == encode(ws, a) + encode(ws, b),
{
    reveal(encode);
    let l = encode(ws, a + b);
    let r = encode(ws, a) + encode(ws, b);
    if ws == 4 {
        assert forall|i: int| 0 <= i < l.len() implies l[i] == r[i] by {
            if i >= a.len() * 4 {
                let j = i - a.len() * 4;
                assert(j / 4 == i / 4 - a.len() && j % 4 == i % 4);
                assert((a + b)[i / 4] == b[j / 4]);
            } else {
                assert((a + b)[i / 4] == a[i / 4]);
            }
        }
    } else {
        assert forall|i: int| 0 <= i < l.len() implies l[i] == r[i] by {
            if i >= a.len() * 8 {
                let j = i - a.len() * 8;
                assert(j / 8 == i / 8 - a.len() && j % 8 == i % 8);
                assert((a + b)[i / 8] == b[j / 8]);
            } else {
                assert((a + b)[i / 8] == a[i / 8]);
            }
        }
    }
    assert(l =~= r);
}

proof fn lemma_encode_one(ws: nat, w: Word)
    requires
        is_word_size(ws as int),
    ensures
        encode(ws, seq![w]) == le_bytes(word_nat(w, ws), ws),
{
    reveal(encode);
    assert(encode(ws, seq![w]) =~= le_bytes(word_nat(w, ws), ws));
}

/// Bytes that contain an encoding hold the encoded words.
pub proof fn lemma_encode_holds(pre: Seq<u8>, ws: nat, s: Seq<Word>, k: int)
    requires
        is_word_size(ws as int),
        pre.len() == k * ws,
    ensures
        holds_at(pre + encode(ws, s), ws, k, s),
{
    reveal(holds_at);
    let b = pre + encode(ws, s);
    lemma_encode_len(ws, s);
    assert((k + s.len()) * ws == k * ws + s.len() * ws) by (nonlinear_arith);
    assert(0 <= k) by (nonlinear_arith)
        requires
            0 <= k * ws,
            ws > 0,
    ;
    assert forall|i: int| 0 <= i < s.len() implies #[trigger] le_at(b, (k + i) * ws, ws) == word_nat(
        s[i],
        ws,
    ) by {
        let o = (k + i) * ws;
        assert(o == pre.len() + i * ws) by (nonlinear_arith)
            requires
                o == (k + i) * ws,
                pre.len() == k * ws,
        ;
        assert forall|j: int| 0 <= j < ws implies #[trigger] b[o + j] == byte_of(
            word_nat(s[i], ws),
            j as nat,
        ) by {
            reveal(encode);
            if ws == 4 {
                assert((i * 4 + j) / 4 == i && (i * 4 + j) % 4 == j);
            } else {
                assert((i * 8 + j) / 8 == i && (i * 8 + j) % 8 == j);
            }
        }
        lemma_le_at_of_bytes(b, o, word_nat(s[i], ws), ws);
        lemma_word_nat_bound(s[i], ws);
        vstd::arithmetic::div_mod::lemma_small_mod(word_nat(s[i], ws), pow256(ws));
    }
}

/// A part of the words held stands where it stands among them.
pub proof fn lemma_holds_part(b: Seq<u8>, ws: nat, k: int, s: Seq<Word>, at: int, part: Seq<Word>)
    requires
        holds_at(b, ws, k, s),
        0 <= at,
        at + part.len() <= s.len(),
        s.subrange(at, at + part.len()) == part,
    ensures
        holds_at(b, ws, k + at, part),
{
    reveal(holds_at);
    assert((k + at + part.len()) * ws <= (k + s.len()) * ws) by (nonlinear_arith)
        requires
            at + part.len() <= s.len(),
    ;
    assert forall|i: int| 0 <= i < part.len() implies #[trigger] le_at(b, (k + at + i) * ws, ws)
        == word_nat(part[i], ws) by {
        assert(part[i] == s[at + i]);
        assert(le_at(b, (k + (at + i)) * ws, ws) == word_nat(s[at + i], ws));
    }
}

/// Reading a word that holds an integer which fits gives that integer.
pub proof fn lemma_read_int(b: Seq<u8>, ws: nat, k: int, s: Seq<Word>, i: int)
    requires
        is_word_size(ws as int),
        holds_at(b, ws, k, s),
        0 <= i < s.len(),
        s[i] is Int,
    ensures
        (k + i + 1) * ws <= b.len(),
        int_at(b, (k + i) * ws, ws) == signed(wrap_to(s[i]->Int_0, ws), ws),
        -0x8000_0000 <= s[i]->Int_0 < 0x8000_0000 ==> int_at(b, (k + i) * ws, ws) == s[i]->Int_0,
{
    reveal(holds_at);
    assert((k + i + 1) * ws <= (k + s.len()) * ws) by (nonlinear_arith)
        requires
            i + 1 <= s.len(),
    ;
    assert((k + i) * ws + ws == (k + i + 1) * ws && 0 <= (k + i) * ws) by (nonlinear_arith)
        requires
            0 <= k,
            0 <= i,
    ;
    assert(le_at(b, (k + i) * ws, ws) == word_nat(s[i], ws));
    if -0x8000_0000 <= s[i]->Int_0 < 0x8000_0000 {
        lemma_pow256_values();
        crate::le::lemma_signed_wrap(s[i]->Int_0, ws);
    }
}

/// Reading a word that holds a double gives that double, as precisely as the
/// word can hold it.
pub proof fn lemma_read_float(b: Seq<u8>, ws: nat, k: int, s: Seq<Word>, i: int)
    requires
        is_word_size(ws as int),
        holds_at(b, ws, k, s),
        0 <= i < s.len(),
        s[i] is Float,
    ensures
        (k + i + 1) * ws <= b.len(),
        float_at(b, (k + i) * ws, ws) == stored(s[i]->Float_0, ws),
{
    reveal(holds_at);
    assert((k + i + 1) * ws <= (k + s.len()) * ws) by (nonlinear_arith)
        requires
            i + 1 <= s.len(),
    ;
    assert((k + i) * ws + ws == (k + i + 1) * ws && 0 <= (k + i) * ws) by (nonlinear_arith)
        requires
            0 <= k,
            0 <= i,
    ;
    assert(le_at(b, (k + i) * ws, ws) == word_nat(s[i], ws));
}

/// Reading a run of stored doubles.
pub proof fn lemma_read_floats(b: Seq<u8>, ws: nat, k: int, v: Seq<u64>)
    requires
        is_word_size(ws as int),
        holds_at(b, ws, k, floats(v)),
    ensures
        (k + v.len()) * ws <= b.len(),
        floats_at(b, k * ws, v.len(), ws) == stored_all(v, ws),
{
    reveal(holds_at);
    assert forall|i: int| 0 <= i < v.len() implies #[trigger] floats_at(b, k * ws, v.len(), ws)[i]
        == stored(v[i], ws) by {
        lemma_read_float(b, ws, k, floats(v), i);
        assert(k * ws + i * ws == (k + i) * ws) by (nonlinear_arith);
    }
    assert(floats_at(b, k * ws, v.len(), ws) =~= stored_all(v, ws));
}

/// Appends one integer word.
pub fn push_word_i(buf: &mut Vec<u8>, v: i64, ws: usize)
    requires
        is_word_size(ws as int),
    ensures
        final(buf)@ == old(buf)@ + encode(ws as nat, seq![Word::Int(v as int)]),
{
    proof {
        lemma_encode_one(ws as nat, Word::Int(v as int));
    }
    if ws == 8 {
        push_u64(buf, from_i64(v));
    } else {
        push_u32(buf, low_u32(v));
    }
}

/// Appends one unsigned integer word.
pub fn push_word_u(buf: &mut Vec<u8>, v: u64, ws: usize)
    requires
        is_word_size(ws as int),
    ensures
        final(buf)@ == old(buf)@ + encode(ws as nat, seq![Word::Int(v as int)]),
{
    proof {
        lemma_encode_one(ws as nat, Word::Int(v as int));
        lemma_pow256_values();
    }
    if ws == 8 {
        assert(wrap_to(v as int, 8) == v);
        push_u64(buf, v);
    } else {
        push_u32(buf, (v % 0x1_0000_0000) as u32);
    }
}

/// Appends one float word: the double itself, or the nearest single.
pub fn push_word_f(buf: &mut Vec<u8>, v: u64, ws: usize)
    requires
        is_word_size(ws as int),
    ensures
        final(buf)@ == old(buf)@ + encode(ws as nat, seq![Word::Float(v)]),
{
    proof {
        lemma_encode_one(ws as nat, Word::Float(v));
    }
    if ws == 8 {
        push_u64(buf, v);
    } else {
        push_u32(buf, narrow(v));
    }
}

/// Appends float words.
pub fn push_word_fs(buf: &mut Vec<u8>, s: &[u64], ws: usize)
    requires
        is_word_size(ws as int),
    ensures
        final(buf)@ == old(buf)@ + encode(ws as nat, floats(s@)),
{
    let ghost start = buf@;
    proof {
        lemma_encode_empty(ws as nat);
        assert(floats(s@.take(0)) =~= Seq::<Word>::empty());
        assert(buf@ =~= start + encode(ws as nat, floats(s@.take(0))));
    }
    for i in 0..s.len()
        invariant
            is_word_size(ws as int),
            buf@ == start + encode(ws as nat, floats(s@.take(i as int))),
    {
        proof {
            lemma_encode_add(ws as nat, floats(s@.take(i as int)), seq![Word::Float(s@[i as int])]);
            assert(floats(s@.take(i + 1)) =~= floats(s@.take(i as int)) + seq![
                Word::Float(s@[i as int]),
            ]);
        }
        push_word_f(buf, s[i], ws);
    }
    proof {
        assert(s@.take(s@.len() as int) =~= s@);
    }
}

/// Appends integer words.
pub fn push_word_is(buf: &mut Vec<u8>, s: &[i32], ws: usize)
    requires
        is_word_size(ws as int),
    ensures
        final(buf)@ == old(buf)@ + encode(ws as nat, ints(s@)),
{
    let ghost start = buf@;
    proof {
        lemma_encode_empty(ws as nat);
        assert(ints(s@.take(0)) =~= Seq::<Word>::empty());
        assert(buf@ =~= start + encode(ws as nat, ints(s@.take(0))));
    }
    for i in 0..s.len()
        invariant
            is_word_size(ws as int),
            buf@ == start + encode(ws as nat, ints(s@.take(i as int))),
    {
        proof {
            lemma_encode_add(ws as nat, ints(s@.take(i as int)), seq![Word::Int(s@[i as int] as int)]);
            assert(ints(s@.take(i + 1)) =~= ints(s@.take(i as int)) + seq![
                Word::Int(s@[i as int] as int),
            ]);
        }
        push_word_i(buf, s[i] as i64, ws);
    }
    proof {
        assert(s@.take(s@.len() as int) =~= s@);
    }
}

/// Appends `n` times the double `v`.
pub fn push_fill(buf: &mut Vec<u8>, n: usize, v: u64, ws: usize)
    requires
        is_word_size(ws as int),
    ensures
        final(buf)@ == old(buf)@ + encode(ws as nat, fill(n as nat, v)),
{
    let ghost start = buf@;
    proof {
        lemma_encode_empty(ws as nat);
        assert(fill(0, v) =~= Seq::<Word>::empty());
        assert(buf@ =~= start + encode(ws as nat, fill(0, v)));
    }
    for i in 0..n
        invariant
            is_word_size(ws as int),
            buf@ == start + encode(ws as nat, fill(i as nat, v)),
    {
        proof {
            lemma_encode_add(ws as nat, fill(i as nat, v), seq![Word::Float(v)]);
            assert(fill((i + 1) as nat, v) =~= fill(i as nat, v) + seq![Word::Float(v)]);
        }
        push_word_f(buf, v, ws);
    }
}

/// Appends `n` times the integer `v`.
pub fn push_int_fill(buf: &mut Vec<u8>, n: usize, v: i64, ws: usize)
    requires
        is_word_size(ws as int),
    ensures
        final(buf)@ == old(buf)@ + encode(ws as nat, int_fill(n as nat, v as int)),
{
    let ghost start = buf@;
    proof {
        lemma_encode_empty(ws as nat);
        assert(int_fill(0, v as int) =~= Seq::<Word>::empty());
        assert(buf@ =~= start + encode(ws as nat, int_fill(0, v as int)));
    }
    for i in 0..n
        invariant
            is_word_size(ws as int),
            buf@ == start + encode(ws as nat, int_fill(i as nat, v as int)),
    {
        proof {
            lemma_encode_add(ws as nat, int_fill(i as nat, v as int), seq![Word::Int(v as int)]);
            assert(int_fill((i + 1) as nat, v as int) =~= int_fill(i as nat, v as int) + seq![
                Word::Int(v as int),
            ]);
        }
        push_word_i(buf, v, ws);
    }
}

/// The integer at byte `off`, or `None` when the bytes end before its word does.
pub fn try_read_int(bytes: &[u8], off: usize, ws: u64) -> (r: Option<i64>)
    requires
        is_word_size(ws as int),
    ensures
        r is Some <==> off + ws <= bytes@.len(),
        r matches Some(v) ==> v == int_at(bytes@, off as int, ws as nat),
{
    let len: usize = bytes.len();
    if len < ws as usize || off > len - ws as usize {
        None
    } else if ws == 4 {
        Some(to_i32(read_u32_le(bytes, off)) as i64)
    } else {
        Some(to_i64(read_u64_le(bytes, off)))
    }
}

/// The integer at byte `off`; 0 past the end.
pub fn read_int_at(bytes: &[u8], off: usize, ws: u64) -> (r: i64)
    requires
        is_word_size(ws as int),
    ensures
        r == int_at(bytes@, off as int, ws as nat),
{
    match try_read_int(bytes, off, ws) {
        Some(v) => v,
        None => 0,
    }
}

/// The double at byte `off`, widened from single precision in a 4-byte word; 0
/// past the end.
pub fn read_float_at(bytes: &[u8], off: usize, ws: u64) -> (r: u64)
    requires
        is_word_size(ws as int),
    ensures
        r == float_at(bytes@, off as int, ws as nat),
{
    let len: usize = bytes.len();
    if len < ws as usize || off > len - ws as usize {
        0
    } else if ws == 4 {
        widen(read_u32_le(bytes, off))
    } else {
        read_u64_le(bytes, off)
    }
}

/// The end of `n` words from byte `off` on, when it lies within `len`.
pub fn end_of(off: usize, n: usize, ws: usize, len: usize) -> (r: Option<usize>)
    requires
        is_word_size(ws as int),
    ensures
        r is Some <==> off + n * ws <= len,
        r matches Some(e) ==> e == off + n * ws,
{
    if off > len {
        assert(n * ws >= 0) by (nonlinear_arith);
        None
    } else if n > (len - off) / ws {
        assert(off + n * ws > len) by (nonlinear_arith)
            requires
                n > (len - off) / (ws as int),
                ws > 0,
                off <= len,
        ;
        None
    } else {
        assert(off + n * ws <= len) by (nonlinear_arith)
            requires
                n <= (len - off) / (ws as int),
                ws > 0,
                off <= len,
        ;
        Some(off + n * ws)
    }
}

/// The `n` doubles from byte `off` on; an error when the bytes end before them.
pub fn read_floats_at(bytes: &[u8], off: usize, n: usize, ws: u64) -> (r: Result<
    Vec<u64>,
    D3plotError,
>)
    requires
        is_word_size(ws as int),
    ensures
        r is Ok <==> off + n * ws <= bytes@.len(),
        r matches Ok(v) ==> v@ == floats_at(bytes@, off as int, n as nat, ws as nat),
        r matches Err(e) ==> e.says("d3plot truncated: float block out of range"@),
{
    match end_of(off, n, ws as usize, bytes.len()) {
        None => Err(
            D3plotError::Unsupported(
                String::from_str("d3plot truncated: float block out of range"),
            ),
        ),
        Some(end) => {
            let mut out: Vec<u64> = Vec::new();
            let mut pos: usize = off;
            let mut i: usize = 0;
            while i < n
                invariant
                    is_word_size(ws as int),
                    i <= n,
                    end == off + n * ws,
                    end <= bytes@.len(),
                    pos == off + i * ws,
                    out@ == floats_at(bytes@, off as int, i as nat, ws as nat),
                decreases n - i,
            {
                assert(pos + ws <= end) by (nonlinear_arith)
                    requires
                        pos == off + i * ws,
                        end == off + n * ws,
                        i + 1 <= n,
                ;
                assert(off + (i + 1) * ws == off + i * ws + ws) by (nonlinear_arith);
                out.push(read_float_at(bytes, pos, ws));
                pos = pos + ws as usize;
                i = i + 1;
                assert(out@ =~= floats_at(bytes@, off as int, i as nat, ws as nat));
            }
            Ok(out)
        },
    }
}

/// The number of whole words among at most `n` from byte `off` on.
pub open spec fn words_available(len: nat, off: int, n: nat, ws: nat) -> nat {
    if off + n * ws <= len {
        n
    } else if off >= len {
        0
    } else {
        ((len - off) / (ws as int)) as nat
    }
}

/// The integers in the words from byte `off` on: `n` of them, or as many whole
/// words as the bytes hold.
pub open spec fn ints_at(b: Seq<u8>, off: int, n: nat, ws: nat) -> Seq<i64> {
    Seq::new(
        words_available(b.len(), off, n, ws),
        |i: int| int_at(b, off + i * ws, ws) as i64,
    )
}

/// Reads up to `n` integers from byte `off` on; stops early if the bytes do.
pub fn read_ints_at(bytes: &[u8], off: usize, n: usize, ws: usize) -> (r: Vec<i64>)
    requires
        is_word_size(ws as int),
    ensures
        r@ == ints_at(bytes@, off as int, n as nat, ws as nat),
{
    let len: usize = bytes.len();
    let mut out: Vec<i64> = Vec::new();
    let count: usize = match end_of(off, n, ws, len) {
        Some(_) => n,
        None => if off >= len { 0 } else { (len - off) / ws },
    };
    if count == 0 {
        assert(out@ =~= ints_at(bytes@, off as int, n as nat, ws as nat));
        return out;
    }
    let mut pos: usize = off;
    let mut i: usize = 0;
    assert(off + count * ws <= len) by {
        if count != n || off + n * ws > len {
            assert(count * ws <= len - off) by (nonlinear_arith)
                requires
                    count == (len - off) / (ws as int),
                    ws > 0,
                    off <= len,
            ;
        }
    }
    while i < count
        invariant
            is_word_size(ws as int),
            i <= count,
            off + count * ws <= len,
            len == bytes@.len(),
            pos == off + i * ws,
            out@.len() == i,
            forall|j: int| 0 <= j < i ==> out@[j] == int_at(bytes@, off + j * ws, ws as nat) as i64,
        decreases count - i,
    {
        assert(pos + ws <= off + count * ws) by (nonlinear_arith)
            requires
                pos == off + i * ws,
                i + 1 <= count,
        ;
        assert(off + (i + 1) * ws == off + i * ws + ws) by (nonlinear_arith);
        out.push(read_int_at(bytes, pos, ws as u64));
        pos = pos + ws;
        i = i + 1;
    }
    assert(out@ =~= ints_at(bytes@, off as int, n as nat, ws as nat));
    out
}

} // verus!
