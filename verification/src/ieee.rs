//! Binary floating-point numbers as bit patterns.
//!
//! Result databases hold IEEE 754 single- and double-precision values. The
//! library carries a value as the 64-bit pattern of the double (or the 32-bit
//! pattern of the single) and converts between the two, and from and to
//! integers, on the patterns themselves.

use vstd::arithmetic::power2::pow2;
use vstd::prelude::*;

verus! {

/// Bits of the pattern of positive infinity, single precision.
pub const SINGLE_INF: u32 = 0x7F80_0000;

/// Bits of the pattern of positive infinity, double precision.
pub const DOUBLE_INF: u64 = 0x7FF0_0000_0000_0000;

/// The exponent of the highest set bit of `m` (0 for `m == 0`).
pub open spec fn log2(m: nat) -> nat
    decreases m,
{
    if m <= 1 {
        0
    } else {
        1 + log2(m / 2)
    }
}

/// `m / d` rounded to the nearest integer, ties to the even one.
pub open spec fn round_even(m: nat, d: nat) -> nat {
    let q = m / d;
    let r = m % d;
    if 2 * r > d || (2 * r == d && q % 2 == 1) {
        q + 1
    } else {
        q
    }
}

pub open spec fn is_nan(b: u64) -> bool {
    b % 0x8000_0000_0000_0000 > DOUBLE_INF
}

/// Orders doubles that are no NaN: the value of the pattern grows with its key,
/// and both zeros have the key 0.
pub open spec fn order_key(b: u64) -> int {
    if b < 0x8000_0000_0000_0000 {
        b as int
    } else {
        0x8000_0000_0000_0000 - b
    }
}

/// `a < b` as numbers; false when either is a NaN.
pub open spec fn double_lt(a: u64, b: u64) -> bool {
    !is_nan(a) && !is_nan(b) && order_key(a) < order_key(b)
}

/// `a == b` as numbers; false when either is a NaN.
pub open spec fn double_eq(a: u64, b: u64) -> bool {
    !is_nan(a) && !is_nan(b) && order_key(a) == order_key(b)
}

/// The double equal to the single with pattern `b`. A NaN keeps its sign and
/// payload and becomes quiet.
pub open spec fn widened(b: u32) -> nat {
    let sign: nat = if b >= 0x8000_0000 { 0x8000_0000_0000_0000 } else { 0 };
    let exp = (b as nat / 0x80_0000) % 256;
    let man = b as nat % 0x80_0000;
    let magnitude: nat = if exp == 255 {
        if man == 0 {
            DOUBLE_INF as nat
        } else {
            (DOUBLE_INF as nat) + 0x8_0000_0000_0000 + (man % 0x40_0000) * 0x2000_0000
        }
    } else if exp == 0 {
        if man == 0 {
            0
        } else {
            // man * 2^-149, normalized
            (log2(man) + 873) * 0x10_0000_0000_0000 + man * pow2((52 - log2(man)) as nat)
        }
    } else {
        (exp + 896) * 0x10_0000_0000_0000 + man * 0x2000_0000
    };
    sign + magnitude
}

/// The single nearest to the double with pattern `b`, ties to even; values
/// beyond the largest single become infinite. A NaN keeps its sign and the high
/// bits of its payload and becomes quiet.
pub open spec fn narrowed(b: u64) -> nat {
    let sign: nat = if b >= 0x8000_0000_0000_0000 { 0x8000_0000 } else { 0 };
    let exp = (b as nat / 0x10_0000_0000_0000) % 2048;
    let man = b as nat % 0x10_0000_0000_0000;
    let magnitude: nat = if exp == 2047 {
        if man == 0 {
            SINGLE_INF as nat
        } else {
            (SINGLE_INF as nat) + 0x40_0000 + (man / 0x2000_0000) % 0x40_0000
        }
    } else if exp == 0 {
        0
    } else {
        // significand (2^52 + man), exponent exp - 1023, least single exponent -126
        let floor = if exp >= 897 { exp } else { 897 };
        let n = (floor - 897) * 0x80_0000 + round_even(
            0x10_0000_0000_0000 + man,
            pow2((29 + floor - exp) as nat),
        );
        if n < SINGLE_INF { n as nat } else { SINGLE_INF as nat }
    };
    sign + magnitude
}

/// The double nearest to the integer `v`, ties to even.
pub open spec fn double_of_int(v: int) -> nat {
    let sign: nat = if v < 0 { 0x8000_0000_0000_0000 } else { 0 };
    let m: nat = if v < 0 { (-v) as nat } else { v as nat };
    let p = log2(m);
    if m == 0 {
        0
    } else if p <= 52 {
        sign + (p + 1022) * 0x10_0000_0000_0000 + m * pow2((52 - p) as nat)
    } else {
        sign + (p + 1022) * 0x10_0000_0000_0000 + round_even(m, pow2((p - 52) as nat))
    }
}

/// The integer part of the double with pattern `b`, held to the signed 64-bit
/// range; 0 for a NaN.
pub open spec fn int_of_double(b: u64) -> int {
    let neg = b >= 0x8000_0000_0000_0000;
    let exp = (b as nat / 0x10_0000_0000_0000) % 2048;
    let m = 0x10_0000_0000_0000 + b as nat % 0x10_0000_0000_0000;
    if is_nan(b) || exp < 1023 {
        0
    } else if exp >= 1086 {
        if neg { i64::MIN as int } else { i64::MAX as int }
    } else {
        let mag: nat = if exp >= 1075 {
            m * pow2((exp - 1075) as nat)
        } else {
            m / pow2((1075 - exp) as nat)
        };
        if neg { -(mag as int) } else { mag as int }
    }
}

proof fn lemma_pow2_small()
    ensures
        pow2(0) == 1,
        pow2(23) == 0x80_0000,
        pow2(29) == 0x2000_0000,
        pow2(52) == 0x10_0000_0000_0000,
        pow2(63) == 0x8000_0000_0000_0000,
{
    vstd::arithmetic::power2::lemma2_to64();
    vstd::arithmetic::power2::lemma2_to64_rest();
}

/// `2^log2(m) <= m < 2^(log2(m)+1)`.
proof fn lemma_log2(m: nat)
    requires
        m > 0,
    ensures
        pow2(log2(m)) <= m < 2 * pow2(log2(m)),
        pow2(log2(m) + 1) == 2 * pow2(log2(m)),
    decreases m,
{
    vstd::arithmetic::power2::lemma_pow2_unfold(log2(m) + 1);
    if m > 1 {
        lemma_log2(m / 2);
    } else {
        lemma_pow2_small();
    }
}

/// `2^k`.
fn two_to(k: u32) -> (r: u64)
    requires
        k < 64,
    ensures
        r == pow2(k as nat),
{
    let mut r: u64 = 1;
    let mut i: u32 = 0;
    proof {
        lemma_pow2_small();
    }
    while i < k
        invariant
            i <= k < 64,
            r == pow2(i as nat),
        decreases k - i,
    {
        proof {
            lemma_pow2_small();
            vstd::arithmetic::power2::lemma_pow2_unfold((i + 1) as nat);
            if i < 62 {
                vstd::arithmetic::power2::lemma_pow2_strictly_increases((i + 1) as nat, 63);
            }
        }
        r = r * 2;
        i = i + 1;
    }
    r
}

/// The exponent of the highest set bit of `m`.
fn log2_exec(m: u64) -> (p: u32)
    requires
        m > 0,
    ensures
        p == log2(m as nat),
        p < 64,
{
    let mut p: u32 = 0;
    let mut rest: u64 = m;
    proof {
        lemma_log2(m as nat);
        if log2(m as nat) >= 64 {
            vstd::arithmetic::power2::lemma_pow2_unfold(64);
            lemma_pow2_small();
            if log2(m as nat) > 64 {
                vstd::arithmetic::power2::lemma_pow2_strictly_increases(64, log2(m as nat));
            }
        }
    }
    while rest > 1
        invariant
            rest > 0,
            p + log2(rest as nat) == log2(m as nat),
            log2(m as nat) < 64,
        decreases rest,
    {
        p = p + 1;
        rest = rest / 2;
    }
    p
}

fn round_even_exec(m: u64, d: u64) -> (n: u64)
    requires
        0 < d < 0x8000_0000_0000_0000,
        m < 0xFFFF_FFFF_FFFF_FFFF || d > 1,
    ensures
        n == round_even(m as nat, d as nat),
{
    let q: u64 = m / d;
    let r: u64 = m % d;
    proof {
        if d > 1 {
            assert(q <= m / 2) by (nonlinear_arith)
                requires
                    q == m / d,
                    d > 1,
            ;
        } else {
            assert(q == m) by (nonlinear_arith)
                requires
                    q == m / d,
                    d == 1,
            ;
            assert(r == 0) by (nonlinear_arith)
                requires
                    r == m % d,
                    d == 1,
            ;
        }
    }
    if 2 * r as u128 > d as u128 || (2 * r as u128 == d as u128 && q % 2 == 1) {
        q + 1
    } else {
        q
    }
}

pub fn nan(b: u64) -> (r: bool)
    ensures
        r == is_nan(b),
{
    b % 0x8000_0000_0000_0000 > DOUBLE_INF
}

fn key_of(b: u64) -> (k: i64)
    requires
        !is_nan(b),
    ensures
        k == order_key(b),
{
    if b < 0x8000_0000_0000_0000 {
        b as i64
    } else {
        0 - ((b - 0x8000_0000_0000_0000) as i64)
    }
}

/// `a < b` as numbers.
pub fn less(a: u64, b: u64) -> (r: bool)
    ensures
        r == double_lt(a, b),
{
    !nan(a) && !nan(b) && key_of(a) < key_of(b)
}

/// `a == b` as numbers.
pub fn equal(a: u64, b: u64) -> (r: bool)
    ensures
        r == double_eq(a, b),
{
    !nan(a) && !nan(b) && key_of(a) == key_of(b)
}

/// The double equal to a single.
pub fn widen(b: u32) -> (r: u64)
    ensures
        r == widened(b),
{
    let sign: u64 = if b >= 0x8000_0000 { 0x8000_0000_0000_0000 } else { 0 };
    let exp: u32 = (b / 0x80_0000) % 256;
    let man: u32 = b % 0x80_0000;
    if exp == 255 {
        if man == 0 {
            sign + DOUBLE_INF
        } else {
            sign + (DOUBLE_INF + 0x8_0000_0000_0000 + (man % 0x40_0000) as u64 * 0x2000_0000)
        }
    } else if exp == 0 {
        if man == 0 {
            sign
        } else {
            let p: u32 = log2_exec(man as u64);
            proof {
                lemma_subnormal(man as nat);
            }
            let scale: u64 = two_to(52 - p);
            sign + ((p as u64 + 873) * 0x10_0000_0000_0000 + man as u64 * scale)
        }
    } else {
        sign + ((exp as u64 + 896) * 0x10_0000_0000_0000 + man as u64 * 0x2000_0000)
    }
}

/// A significand of less than 23 bits scaled to 53 bits stays below `2^53`.
proof fn lemma_subnormal(man: nat)
    requires
        0 < man < 0x80_0000,
    ensures
        log2(man) < 23,
        0x10_0000_0000_0000 <= man * pow2((52 - log2(man)) as nat) < 0x20_0000_0000_0000,
{
    lemma_log2(man);
    lemma_pow2_small();
    let p = log2(man);
    if p >= 23 {
        if p > 23 {
            vstd::arithmetic::power2::lemma_pow2_strictly_increases(23, p);
        }
    }
    vstd::arithmetic::power2::lemma_pow2_adds(p, (52 - p) as nat);
    vstd::arithmetic::power2::lemma_pow2_pos((52 - p) as nat);
    let s = pow2((52 - p) as nat);
    let t = pow2(p);
    assert(t * s <= man * s && man * s < (2 * t) * s) by (nonlinear_arith)
        requires
            t <= man < 2 * t,
            s > 0,
    ;
    assert((2 * t) * s == 2 * (t * s)) by (nonlinear_arith);
}

/// Rounding a 53-bit significand by at least 29 bits leaves at most 24 bits.
proof fn lemma_rounded(m: nat, s: nat)
    requires
        0x10_0000_0000_0000 <= m < 0x20_0000_0000_0000,
        29 <= s,
    ensures
        pow2(s) >= 0x2000_0000,
        round_even(m, pow2(s)) <= 0x100_0000,
        s == 29 ==> round_even(m, pow2(s)) >= 0x80_0000,
        s > 54 ==> round_even(m, pow2(s)) == 0,
{
    lemma_pow2_small();
    if s > 29 {
        vstd::arithmetic::power2::lemma_pow2_strictly_increases(29, s);
    }
    let d = pow2(s);
    assert(m / d <= 0xFF_FFFF) by (nonlinear_arith)
        requires
            m < 0x20_0000_0000_0000,
            d >= 0x2000_0000,
    ;
    if s == 29 {
        assert(m / 0x2000_0000 >= 0x80_0000);
    }
    if s > 54 {
        vstd::arithmetic::power2::lemma2_to64_rest();
        vstd::arithmetic::power2::lemma_pow2_strictly_increases(54, s);
        assert(m / d == 0) by (nonlinear_arith)
            requires
                0 <= m < d,
        ;
        assert(m % d == m) by (nonlinear_arith)
            requires
                0 <= m < d,
        ;
    }
}

/// The single nearest to a double.
pub fn narrow(b: u64) -> (r: u32)
    ensures
        r == narrowed(b),
{
    let sign: u32 = if b >= 0x8000_0000_0000_0000 { 0x8000_0000 } else { 0 };
    let exp: u64 = (b / 0x10_0000_0000_0000) % 2048;
    let man: u64 = b % 0x10_0000_0000_0000;
    if exp == 2047 {
        if man == 0 {
            sign + SINGLE_INF
        } else {
            sign + (SINGLE_INF + 0x40_0000 + ((man / 0x2000_0000) % 0x40_0000) as u32)
        }
    } else if exp == 0 {
        sign
    } else {
        let floor: u64 = if exp >= 897 { exp } else { 897 };
        let s: u64 = 29 + floor - exp;
        proof {
            lemma_rounded((0x10_0000_0000_0000 + man) as nat, s as nat);
        }
        let rounded: u64 = if s > 54 {
            0
        } else {
            let d: u64 = two_to(s as u32);
            proof {
                lemma_pow2_small();
                vstd::arithmetic::power2::lemma_pow2_strictly_increases(s as nat, 63);
            }
            round_even_exec(0x10_0000_0000_0000 + man, d)
        };
        let n: u64 = (floor - 897) * 0x80_0000 + rounded;
        if n < SINGLE_INF as u64 {
            sign + n as u32
        } else {
            sign + SINGLE_INF
        }
    }
}

/// The double nearest to an unsigned integer.
pub fn from_uint(m: u64) -> (r: u64)
    ensures
        r == double_of_int(m as int),
        r < 0x8000_0000_0000_0000,
{
    if m == 0 {
        return 0;
    }
    let p: u32 = log2_exec(m);
    proof {
        lemma_log2(m as nat);
        lemma_pow2_small();
    }
    if p <= 52 {
        let scale: u64 = two_to(52 - p);
        proof {
            vstd::arithmetic::power2::lemma_pow2_adds(p as nat, (52 - p) as nat);
            vstd::arithmetic::power2::lemma_pow2_pos((52 - p) as nat);
            let t = pow2(p as nat);
            let s = scale as nat;
            assert(m * s < 2 * (t * s)) by (nonlinear_arith)
                requires
                    t <= m < 2 * t,
                    s > 0,
            ;
        }
        (p as u64 + 1022) * 0x10_0000_0000_0000 + m * scale
    } else {
        let d: u64 = two_to(p - 52);
        proof {
            vstd::arithmetic::power2::lemma_pow2_adds(52, (p - 52) as nat);
            vstd::arithmetic::power2::lemma_pow2_strictly_increases((p - 52) as nat, 63);
            vstd::arithmetic::power2::lemma_pow2_unfold((p - 52) as nat);
            vstd::arithmetic::power2::lemma_pow2_pos((p - 53) as nat);
            assert(m / d < 0x20_0000_0000_0000) by (nonlinear_arith)
                requires
                    m < 2 * (0x10_0000_0000_0000 * d),
                    d > 0,
            ;
        }
        let n: u64 = round_even_exec(m, d);
        (p as u64 + 1022) * 0x10_0000_0000_0000 + n
    }
}

/// The double nearest to an integer.
pub fn from_int(v: i64) -> (r: u64)
    ensures
        r == double_of_int(v as int),
{
    if v < 0 {
        let m: u64 = (-(v as i128)) as u64;
        0x8000_0000_0000_0000 + from_uint(m)
    } else {
        from_uint(v as u64)
    }
}

/// The integer part of a double.
pub fn to_int(b: u64) -> (r: i64)
    ensures
        r == int_of_double(b),
{
    let neg: bool = b >= 0x8000_0000_0000_0000;
    let exp: u64 = (b / 0x10_0000_0000_0000) % 2048;
    let m: u64 = 0x10_0000_0000_0000 + b % 0x10_0000_0000_0000;
    if nan(b) || exp < 1023 {
        return 0;
    }
    if exp >= 1086 {
        return if neg { i64::MIN } else { i64::MAX };
    }
    let mag: u64 = if exp >= 1075 {
        let scale: u64 = two_to((exp - 1075) as u32);
        proof {
            vstd::arithmetic::power2::lemma2_to64();
            if exp < 1085 {
                vstd::arithmetic::power2::lemma_pow2_strictly_increases((exp - 1075) as nat, 10);
            }
            assert(m * scale < 0x8000_0000_0000_0000) by (nonlinear_arith)
                requires
                    m < 0x20_0000_0000_0000,
                    0 < scale <= 1024,
            ;
        }
        m * scale
    } else {
        let d: u64 = two_to((1075 - exp) as u32);
        proof {
            vstd::arithmetic::power2::lemma_pow2_pos((1075 - exp) as nat);
            assert(m / d <= m) by (nonlinear_arith)
                requires
                    d > 0,
            ;
        }
        m / d
    };
    if neg { 0 - mag as i64 } else { mag as i64 }
}

proof fn lemma_round_exact(m: nat, d: nat)
    requires
        d > 0,
    ensures
        round_even(m * d, d) == m,
{
    assert((m * d) / d == m) by (nonlinear_arith)
        requires
            d > 0,
    ;
    assert((m * d) % d == 0) by (nonlinear_arith)
        requires
            d > 0,
    ;
}

/// A single that is no NaN is found again after widening it to a double and
/// narrowing that double.
pub proof fn law_narrow_undoes_widen(b: u32)
    requires
        b % 0x8000_0000 <= SINGLE_INF,
    ensures
        widened(b) <= u64::MAX,
        !is_nan(widened(b) as u64),
        narrowed(widened(b) as u64) == b,
{
    let exp = (b as nat / 0x80_0000) % 256;
    let man = b as nat % 0x80_0000;
    lemma_pow2_small();
    if exp == 255 {
    } else if exp == 0 {
        if man != 0 {
            lemma_subnormal(man);
            let p = log2(man);
            vstd::arithmetic::power2::lemma_pow2_pos((52 - p) as nat);
            lemma_round_exact(man, pow2((52 - p) as nat));
            let w = widened(b) as u64;
            assert((w as nat / 0x10_0000_0000_0000) % 2048 == p + 874);
            assert(w as nat % 0x10_0000_0000_0000 + 0x10_0000_0000_0000 == man * pow2(
                (52 - p) as nat,
            ));
        }
    } else {
        lemma_round_exact(0x80_0000 + man, 0x2000_0000);
        let w = widened(b) as u64;
        assert((w as nat / 0x10_0000_0000_0000) % 2048 == exp + 896);
        assert(w as nat % 0x10_0000_0000_0000 == man * 0x2000_0000);
    }
}

/// Integers of at most 53 bits are exact as doubles.
pub proof fn law_small_int_is_exact(v: int)
    requires
        -0x20_0000_0000_0000 < v < 0x20_0000_0000_0000,
    ensures
        double_of_int(v) <= u64::MAX,
        int_of_double(double_of_int(v) as u64) == v,
{
    let m: nat = if v < 0 { (-v) as nat } else { v as nat };
    if m != 0 {
        lemma_log2(m);
        lemma_pow2_small();
        let p = log2(m);
        if p > 52 {
            vstd::arithmetic::power2::lemma_pow2_unfold(53);
            if p > 53 {
                vstd::arithmetic::power2::lemma_pow2_strictly_increases(53, p);
            }
        }
        vstd::arithmetic::power2::lemma_pow2_adds(p, (52 - p) as nat);
        vstd::arithmetic::power2::lemma_pow2_pos((52 - p) as nat);
        let s = pow2((52 - p) as nat);
        let t = pow2(p);
        assert(t * s <= m * s < 2 * (t * s)) by (nonlinear_arith)
            requires
                t <= m < 2 * t,
                s > 0,
        ;
        let b = double_of_int(v) as u64;
        assert((b as nat / 0x10_0000_0000_0000) % 2048 == p + 1023);
        assert(0x10_0000_0000_0000 + b as nat % 0x10_0000_0000_0000 == m * s);
        assert((m * s) / s == m) by (nonlinear_arith)
            requires
                s > 0,
        ;
        if p == 52 {
            assert(s == 1);
            assert(m * pow2(0) == m) by (nonlinear_arith)
                requires
                    pow2(0) == 1,
            ;
        }
    }
}

/// The pattern of the double of a positive integer of at most 53 bits: it is the larger,
/// the larger the integer is.
proof fn lemma_int_pattern(m: nat, k: nat)
    requires
        0 < m < k < 0x20_0000_0000_0000,
    ensures
        0 < double_of_int(m as int) < double_of_int(k as int) < DOUBLE_INF,
{
    lemma_pow2_small();
    lemma_int_bounds(m);
    lemma_int_bounds(k);
    let p = log2(m);
    let q = log2(k);
    lemma_log2(m);
    lemma_log2(k);
    if p == q {
        let s = pow2((52 - p) as nat);
        vstd::arithmetic::power2::lemma_pow2_pos((52 - p) as nat);
        assert(m * s < k * s) by (nonlinear_arith)
            requires
                m < k,
                s > 0,
        ;
    } else {
        if q < p {
            if q + 1 < p {
                vstd::arithmetic::power2::lemma_pow2_strictly_increases(q + 1, p);
            }
            assert(false);
        }
    }
}

proof fn lemma_int_bounds(m: nat)
    requires
        0 < m < 0x20_0000_0000_0000,
    ensures
        log2(m) <= 52,
        double_of_int(m as int) == (log2(m) + 1022) * 0x10_0000_0000_0000 + m * pow2(
            (52 - log2(m)) as nat,
        ),
        (log2(m) + 1023) * 0x10_0000_0000_0000 <= double_of_int(m as int) < (log2(m) + 1024)
            * 0x10_0000_0000_0000,
        double_of_int(-(m as int)) == 0x8000_0000_0000_0000 + double_of_int(m as int),
{
    lemma_log2(m);
    lemma_pow2_small();
    let p = log2(m);
    if p > 52 {
        vstd::arithmetic::power2::lemma_pow2_unfold(53);
        if p > 53 {
            vstd::arithmetic::power2::lemma_pow2_strictly_increases(53, p);
        }
    }
    vstd::arithmetic::power2::lemma_pow2_adds(p, (52 - p) as nat);
    vstd::arithmetic::power2::lemma_pow2_pos((52 - p) as nat);
    let s = pow2((52 - p) as nat);
    let t = pow2(p);
    assert(t * s <= m * s < 2 * (t * s)) by (nonlinear_arith)
        requires
            t <= m < 2 * t,
            s > 0,
    ;
}

/// Integers of at most 53 bits are in the same order as their doubles.
pub proof fn law_integers_keep_their_order(a: int, b: int)
    requires
        -0x20_0000_0000_0000 < a < 0x20_0000_0000_0000,
        -0x20_0000_0000_0000 < b < 0x20_0000_0000_0000,
    ensures
        double_lt(double_of_int(a) as u64, double_of_int(b) as u64) <==> a < b,
        double_eq(double_of_int(a) as u64, double_of_int(b) as u64) <==> a == b,
{
    let m: nat = if a < 0 { (-a) as nat } else { a as nat };
    let k: nat = if b < 0 { (-b) as nat } else { b as nat };
    if m > 0 {
        lemma_int_bounds(m);
    }
    if k > 0 {
        lemma_int_bounds(k);
    }
    if 0 < m < k {
        lemma_int_pattern(m, k);
    }
    if 0 < k < m {
        lemma_int_pattern(k, m);
    }
}

/// A negative number is below one that is not; among numbers that are not negative the
/// larger pattern is the larger number, and among negative ones it is the smaller. The two
/// zeros are equal, and a NaN is neither below nor equal to anything.
pub proof fn law_order_of_patterns(a: u64, b: u64)
    ensures
        ({
            let nan = |x: u64| x % 0x8000_0000_0000_0000 > 0x7FF0_0000_0000_0000;
            let neg = |x: u64| x > 0x8000_0000_0000_0000;
            let zero = |x: u64| x == 0 || x == 0x8000_0000_0000_0000;
            &&& nan(a) || nan(b) ==> !double_lt(a, b) && !double_eq(a, b)
            &&& !nan(a) && !nan(b) ==> {
                &&& neg(a) && !neg(b) ==> double_lt(a, b)
                &&& !neg(a) && neg(b) ==> !double_lt(a, b)
                &&& neg(a) && neg(b) ==> (double_lt(a, b) <==> b < a)
                &&& !neg(a) && !neg(b) && !zero(a) && !zero(b) ==> (double_lt(a, b) <==> a < b)
                &&& zero(a) && !neg(b) ==> (double_lt(a, b) <==> !zero(b))
                &&& zero(b) && !neg(a) ==> !double_lt(a, b)
                &&& double_eq(a, b) <==> a == b || (zero(a) && zero(b))
            }
        }),
{
}

} // verus!
