//! Little-endian words: what a run of bytes means as an unsigned or signed
//! number, and the byte-wise reading and writing of such words.

use vstd::prelude::*;

verus! {

/// `256` to the power `n`.
pub open spec fn pow256(n: nat) -> nat
    decreases n,
{
    if n == 0 {
        1
    } else {
        256 * pow256((n - 1) as nat)
    }
}

/// The unsigned number held, least significant byte first, by the `n` bytes of
/// `s` from position `o` on.
pub open spec fn le_at(s: Seq<u8>, o: int, n: nat) -> nat
    decreases n,
{
    if n == 0 {
        0
    } else {
        s[o] as nat + 256 * le_at(s, o + 1, (n - 1) as nat)
    }
}

/// Byte `j`, counted from the least significant one, of `v`.
pub open spec fn byte_of(v: nat, j: nat) -> u8 {
    ((v / pow256(j)) % 256) as u8
}

/// The `n` little-endian bytes of `v` (of `v` modulo `256^n` when it is larger).
pub open spec fn le_bytes(v: nat, n: nat) -> Seq<u8> {
    Seq::new(n, |j: int| byte_of(v, j as nat))
}

/// `v` reduced to an unsigned number of `n` bytes, as a two's complement word.
pub open spec fn wrap_to(v: int, n: nat) -> nat {
    (v % (pow256(n) as int)) as nat
}

/// The two's complement reading of the unsigned `n`-byte number `u`.
pub open spec fn signed(u: nat, n: nat) -> int {
    if 2 * u < pow256(n) {
        u as int
    } else {
        u - pow256(n)
    }
}

/// `v` wrapped into a signed 32-bit number, as a narrowing cast does.
pub open spec fn wrap_i32(v: int) -> int {
    signed(wrap_to(v, 4), 4)
}

pub proof fn lemma_pow256_values()
    ensures
        pow256(0) == 1,
        pow256(1) == 0x100,
        pow256(2) == 0x1_0000,
        pow256(3) == 0x100_0000,
        pow256(4) == 0x1_0000_0000,
        pow256(5) == 0x100_0000_0000,
        pow256(6) == 0x1_0000_0000_0000,
        pow256(7) == 0x100_0000_0000_0000,
        pow256(8) == 0x1_0000_0000_0000_0000,
{
    reveal_with_fuel(pow256, 9);
}

pub proof fn lemma_pow256_pos(n: nat)
    ensures
        pow256(n) > 0,
    decreases n,
{
    if n > 0 {
        lemma_pow256_pos((n - 1) as nat);
    }
}

/// A word of `n` bytes holds a number below `256^n`.
pub proof fn lemma_le_at_bound(s: Seq<u8>, o: int, n: nat)
    ensures
        le_at(s, o, n) < pow256(n),
    decreases n,
{
    if n > 0 {
        lemma_le_at_bound(s, o + 1, (n - 1) as nat);
    }
}

/// A word depends on its own bytes only.
pub proof fn lemma_le_at_same(s: Seq<u8>, o: int, t: Seq<u8>, p: int, n: nat)
    requires
        forall|j: int| 0 <= j < n ==> #[trigger] s[o + j] == t[p + j],
    ensures
        le_at(s, o, n) == le_at(t, p, n),
    decreases n,
{
    if n > 0 {
        assert(s[o + 0] == t[p + 0]);
        assert forall|j: int| 0 <= j < n - 1 implies #[trigger] s[o + 1 + j] == t[p + 1 + j] by {
            assert(s[o + (1 + j)] == t[p + (1 + j)]);
        }
        lemma_le_at_same(s, o + 1, t, p + 1, (n - 1) as nat);
    }
}

proof fn lemma_le_at_digits(s: Seq<u8>, o: int, v: nat, d: nat, n: nat)
    requires
        forall|j: int| 0 <= j < n ==> #[trigger] s[o + j] == byte_of(v, (d + j) as nat),
    ensures
        le_at(s, o, n) == (v / pow256(d)) % pow256(n),
    decreases n,
{
    lemma_pow256_pos(d);
    let w = v / pow256(d);
    if n == 0 {
        assert(w % 1 == 0);
    } else {
        let m = (n - 1) as nat;
        assert(s[o + 0] == byte_of(v, d));
        assert forall|j: int| 0 <= j < m implies #[trigger] s[o + 1 + j] == byte_of(v, (d + 1 + j) as nat) by {
            assert(s[o + (1 + j)] == byte_of(v, (d + (1 + j)) as nat));
        }
        lemma_le_at_digits(s, o + 1, v, d + 1, m);
        lemma_pow256_pos(m);
        vstd::arithmetic::div_mod::lemma_div_denominator(v as int, pow256(d) as int, 256);
        vstd::arithmetic::mul::lemma_mul_is_commutative(256, pow256(d) as int);
        assert(v / pow256(d + 1) == w / 256);
        vstd::arithmetic::div_mod::lemma_mod_breakdown(w as int, 256, pow256(m) as int);
        assert(w % pow256(n) == 256 * ((w / 256) % pow256(m)) + w % 256);
    }
}

/// Reading back the little-endian bytes of a number gives the number modulo
/// `256^n`.
pub proof fn lemma_le_at_of_bytes(s: Seq<u8>, o: int, v: nat, n: nat)
    requires
        forall|j: int| 0 <= j < n ==> #[trigger] s[o + j] == byte_of(v, j as nat),
    ensures
        le_at(s, o, n) == v % pow256(n),
{
    assert forall|j: int| 0 <= j < n implies #[trigger] s[o + j] == byte_of(v, (0 + j) as nat) by {}
    lemma_le_at_digits(s, o, v, 0, n);
    assert(v / pow256(0) == v) by (nonlinear_arith)
        requires
            pow256(0) == 1,
    ;
}

/// A number that fits a signed word survives wrapping and sign extension.
pub proof fn lemma_signed_wrap(v: int, n: nat)
    requires
        n > 0,
        -(pow256(n) as int) <= 2 * v < pow256(n),
    ensures
        signed(wrap_to(v, n), n) == v,
{
    let p = pow256(n) as int;
    lemma_pow256_pos(n);
    if v >= 0 {
        vstd::arithmetic::div_mod::lemma_small_mod(v as nat, p as nat);
    } else {
        vstd::arithmetic::div_mod::lemma_mod_add_multiples_vanish(v, p);
        vstd::arithmetic::div_mod::lemma_small_mod((v + p) as nat, p as nat);
    }
}

/// The 32-bit word at `o`.
pub fn read_u32_le(b: &[u8], o: usize) -> (r: u32)
    requires
        o + 4 <= b@.len(),
    ensures
        r == le_at(b@, o as int, 4),
{
    proof {
        reveal_with_fuel(le_at, 5);
    }
    b[o] as u32 + 0x100 * (b[o + 1] as u32) + 0x1_0000 * (b[o + 2] as u32) + 0x100_0000 * (
    b[o + 3] as u32)
}

/// The 64-bit word at `o`.
pub fn read_u64_le(b: &[u8], o: usize) -> (r: u64)
    requires
        o + 8 <= b@.len(),
    ensures
        r == le_at(b@, o as int, 8),
{
    let len: usize = b.len();
    assert(o + 8 <= len);
    let lo: u32 = read_u32_le(b, o);
    let hi: u32 = read_u32_le(b, o + 4);
    proof {
        reveal_with_fuel(le_at, 9);
    }
    lo as u64 + 0x1_0000_0000 * (hi as u64)
}

/// The unsigned 32-bit word `u` as a signed one.
pub fn to_i32(u: u32) -> (r: i32)
    ensures
        r == signed(u as nat, 4),
{
    proof {
        lemma_pow256_values();
    }
    if u < 0x8000_0000 {
        u as i32
    } else {
        (u as i64 - 0x1_0000_0000) as i32
    }
}

/// The unsigned 64-bit word `u` as a signed one.
pub fn to_i64(u: u64) -> (r: i64)
    ensures
        r == signed(u as nat, 8),
{
    proof {
        lemma_pow256_values();
    }
    if u < 0x8000_0000_0000_0000 {
        u as i64
    } else {
        (u as i128 - 0x1_0000_0000_0000_0000) as i64
    }
}

/// The two's complement 64-bit word of `v`.
pub fn from_i64(v: i64) -> (r: u64)
    ensures
        r == wrap_to(v as int, 8),
{
    proof {
        lemma_pow256_values();
    }
    if v >= 0 {
        v as u64
    } else {
        proof {
            vstd::arithmetic::div_mod::lemma_mod_add_multiples_vanish(
                v as int,
                0x1_0000_0000_0000_0000,
            );
        }
        (v as i128 + 0x1_0000_0000_0000_0000) as u64
    }
}

/// The low 32 bits of the two's complement of `v`.
pub fn low_u32(v: i64) -> (r: u32)
    ensures
        r == wrap_to(v as int, 4),
{
    proof {
        lemma_pow256_values();
    }
    let m: i64 = v % 0x1_0000_0000;
    if m >= 0 {
        proof {
            lemma_low(v as int, m as int);
        }
        m as u32
    } else {
        proof {
            lemma_low(v as int, m as int);
        }
        (m + 0x1_0000_0000) as u32
    }
}

proof fn lemma_low(v: int, m: int)
    requires
        -0x1_0000_0000 < m < 0x1_0000_0000,
        v >= 0 ==> m == v % 0x1_0000_0000,
        v < 0 ==> m == -((-v) % 0x1_0000_0000),
    ensures
        m >= 0 ==> m == v % 0x1_0000_0000,
        m < 0 ==> m + 0x1_0000_0000 == v % 0x1_0000_0000,
{
}

/// `v` wrapped into 32 bits, as a narrowing cast does.
pub fn narrow_i32(v: i64) -> (r: i32)
    ensures
        r == wrap_i32(v as int),
{
    let u: u32 = low_u32(v);
    to_i32(u)
}

proof fn lemma_byte_values(v: nat)
    ensures
        byte_of(v, 0) == (v % 256) as u8,
        byte_of(v, 1) == ((v / 0x100) % 256) as u8,
        byte_of(v, 2) == ((v / 0x1_0000) % 256) as u8,
        byte_of(v, 3) == ((v / 0x100_0000) % 256) as u8,
        byte_of(v, 4) == ((v / 0x1_0000_0000) % 256) as u8,
        byte_of(v, 5) == ((v / 0x100_0000_0000) % 256) as u8,
        byte_of(v, 6) == ((v / 0x1_0000_0000_0000) % 256) as u8,
        byte_of(v, 7) == ((v / 0x100_0000_0000_0000) % 256) as u8,
{
    lemma_pow256_values();
    assert(v / 1 == v);
}

/// Appends the four bytes of `v`.
pub fn push_u32(buf: &mut Vec<u8>, v: u32)
    ensures
        final(buf)@ == old(buf)@ + le_bytes(v as nat, 4),
{
    proof {
        lemma_byte_values(v as nat);
    }
    let ghost start = buf@;
    buf.push((v % 256) as u8);
    buf.push(((v / 0x100) % 256) as u8);
    buf.push(((v / 0x1_0000) % 256) as u8);
    buf.push((v / 0x100_0000) as u8);
    assert(buf@ =~= start + le_bytes(v as nat, 4)) by {
        assert((v / 0x100_0000) % 256 == v / 0x100_0000);
    }
}

/// Appends the eight bytes of `v`.
pub fn push_u64(buf: &mut Vec<u8>, v: u64)
    ensures
        final(buf)@ == old(buf)@ + le_bytes(v as nat, 8),
{
    proof {
        lemma_byte_values(v as nat);
    }
    let ghost start = buf@;
    buf.push((v % 256) as u8);
    buf.push(((v / 0x100) % 256) as u8);
    buf.push(((v / 0x1_0000) % 256) as u8);
    buf.push(((v / 0x100_0000) % 256) as u8);
    buf.push(((v / 0x1_0000_0000) % 256) as u8);
    buf.push(((v / 0x100_0000_0000) % 256) as u8);
    buf.push(((v / 0x1_0000_0000_0000) % 256) as u8);
    buf.push((v / 0x100_0000_0000_0000) as u8);
    assert(buf@ =~= start + le_bytes(v as nat, 8)) by {
        assert((v / 0x100_0000_0000_0000) % 256 == v / 0x100_0000_0000_0000);
    }
}

} // verus!
