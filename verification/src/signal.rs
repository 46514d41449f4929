//! Time histories: which samples stay, and which band a filter lets through.

use vstd::prelude::*;

verus! {

/// The band that a filter lets through.
#[derive(Debug, Clone, Copy, PartialEq, Eq, Structural)]
pub enum Band {
    Low,
    High,
}

/// Every `factor`-th sample, from the first on; all of them for a factor of 0 or 1.
pub open spec fn thinned(x: Seq<u64>, factor: nat) -> Seq<u64> {
    if factor <= 1 {
        x
    } else {
        Seq::new((x.len() + factor - 1) as nat / factor, |i: int| x[i * factor])
    }
}

/// Sample `j` of the result is the one `j * factor` of the signal.
pub open spec fn kept_at(x: Seq<u64>, out: Seq<u64>, factor: int, j: int) -> bool {
    j * factor < x.len() && out[j] == x[j * factor]
}

/// Keeps every `factor`-th sample, from the first on.
pub fn decimate(x: &[u64], factor: usize) -> (r: Vec<u64>)
    ensures
        r@ == thinned(x@, factor as nat),
{
    if factor <= 1 {
        return vstd::slice::slice_to_vec(x);
    }
    let n: usize = x.len();
    let mut out: Vec<u64> = Vec::new();
    let mut i: usize = 0;
    let ghost k: int = 0;
    proof {
        assert(0 * factor == 0) by (nonlinear_arith);
    }
    while i < n
        invariant
            n == x@.len(),
            factor > 1,
            k == out@.len(),
            i == if k * factor <= n {
                k * factor
            } else {
                n as int
            },
            k == 0 || (k - 1) * factor < n,
            forall|j: int| 0 <= j < out@.len() ==> #[trigger] kept_at(x@, out@, factor as int, j),
        decreases n - i,
    {
        let ghost before = out@;
        out.push(x[i]);
        proof {
            assert(k * factor == i);
            assert forall|j: int| 0 <= j < out@.len() implies #[trigger] kept_at(
                x@,
                out@,
                factor as int,
                j,
            ) by {
                if j < k {
                    assert(kept_at(x@, before, factor as int, j));
                } else {
                    assert(j == k);
                }
            }
            assert((k + 1) * factor == k * factor + factor) by (nonlinear_arith);
            k = k + 1;
        }
        if factor < n - i {
            i = i + factor;
        } else {
            i = n;
        }
    }
    proof {
        let f = factor as int;
        let m = out@.len() as int;
        assert(m * f >= n);
        if m > 0 {
            assert((m - 1) * f < n);
        }
        assert(m == (n + f - 1) / f) by {
            assert(m * f >= n);
            vstd::arithmetic::div_mod::lemma_fundamental_div_mod(n + f - 1, f);
            let q = (n + f - 1) / f;
            let r = (n + f - 1) % f;
            assert(n + f - 1 == f * q + r);
            assert(m == q) by (nonlinear_arith)
                requires
                    n + f - 1 == f * q + r,
                    0 <= r < f,
                    m * f >= n,
                    m == 0 || (m - 1) * f < n,
                    m >= 0,
                    n >= 0,
                    f > 1,
            ;
        }
        assert forall|j: int| 0 <= j < m implies out@[j] == thinned(x@, factor as nat)[j] by {
            assert(kept_at(x@, out@, f, j));
        }
        assert(out@ =~= thinned(x@, factor as nat));
    }
    out
}

/// Thinning by one factor and then by another is thinning by their product.
pub proof fn law_decimate_twice(x: Seq<u64>, a: nat, b: nat)
    requires
        a >= 1,
        b >= 1,
    ensures
        thinned(thinned(x, a), b) == thinned(x, a * b),
{
    if a == 1 {
        assert(1 * b == b) by (nonlinear_arith);
    } else if b == 1 {
        assert(a * 1 == a) by (nonlinear_arith);
    } else {
        let y = thinned(x, a);
        let z = thinned(y, b);
        let n = x.len() as int;
        let (f, g) = (a as int, b as int);
        assert(f * g > 1) by (nonlinear_arith)
            requires
                f > 1,
                g > 1,
        ;
        let m = (n + f - 1) / f;
        let k = (m + g - 1) / g;
        let w = (n + f * g - 1) / (f * g);
        vstd::arithmetic::div_mod::lemma_fundamental_div_mod(n + f - 1, f);
        vstd::arithmetic::div_mod::lemma_fundamental_div_mod(m + g - 1, g);
        vstd::arithmetic::div_mod::lemma_fundamental_div_mod(n + f * g - 1, f * g);
        lemma_ceil_twice(n, f, g, m, k, w);
        assert(z.len() == k);
        assert forall|i: int| 0 <= i < k implies z[i] == thinned(x, a * b)[i] by {
            assert(0 <= i * g < m) by (nonlinear_arith)
                requires
                    0 <= i < k,
                    m + g - 1 == g * k + (m + g - 1) % g,
                    0 <= (m + g - 1) % g < g,
                    g > 1,
            ;
            assert((i * g) * f == i * (f * g)) by (nonlinear_arith);
        }
        assert(z =~= thinned(x, a * b));
    }
}

proof fn lemma_ceil_twice(n: int, f: int, g: int, m: int, k: int, w: int)
    requires
        n >= 0,
        f > 1,
        g > 1,
        f * g > 1,
        m == (n + f - 1) / f,
        k == (m + g - 1) / g,
        w == (n + f * g - 1) / (f * g),
        n + f - 1 == f * m + (n + f - 1) % f,
        m + g - 1 == g * k + (m + g - 1) % g,
        n + f * g - 1 == (f * g) * w + (n + f * g - 1) % (f * g),
    ensures
        k == w,
{
    let p = f * g;
    let r1 = (n + f - 1) % f;
    let r2 = (m + g - 1) % g;
    let r3 = (n + p - 1) % p;
    assert(0 <= r1 < f && 0 <= r2 < g && 0 <= r3 < p);
    // n <= f*m and f*(m-1) < n; m <= g*k and g*(k-1) < m.
    assert(n <= f * m);
    assert(f * m - f < n) by (nonlinear_arith)
        requires
            n + f - 1 == f * m + r1,
            0 <= r1 < f,
    ;
    assert(f * m <= p * k) by (nonlinear_arith)
        requires
            m + g - 1 == g * k + r2,
            0 <= r2 < g,
            p == f * g,
            f > 1,
    ;
    assert(p * (k - 1) <= f * (m - 1)) by (nonlinear_arith)
        requires
            m + g - 1 == g * k + r2,
            0 <= r2 < g,
            p == f * g,
            f > 1,
    ;
    assert(f * (m - 1) == f * m - f) by (nonlinear_arith);
    assert(p * (k - 1) < n && n <= p * k);
    assert(k == w) by (nonlinear_arith)
        requires
            p * (k - 1) < n,
            n <= p * k,
            n + p - 1 == p * w + r3,
            0 <= r3 < p,
            p > 1,
    ;
}

/// Sample `i` of a thinned signal is sample `i * k` of the signal, and the first sample that
/// is missing would stand behind the last of the signal.
pub proof fn law_every_kth(x: Seq<u64>, k: nat, i: int)
    requires
        k >= 1,
    ensures
        0 <= i < thinned(x, k).len() ==> i * k < x.len() && thinned(x, k)[i] == x[i * k],
        thinned(x, k).len() * k >= x.len(),
{
    let n = x.len() as int;
    let f = k as int;
    if k > 1 {
        let m = (n + f - 1) / f;
        assert(m * f <= n + f - 1 && m * f >= n) by (nonlinear_arith)
            requires
                m == (n + f - 1) / f,
                f > 1,
        ;
        if 0 <= i < m {
            assert(i * f <= m * f - f) by (nonlinear_arith)
                requires
                    i <= m - 1,
                    f > 1,
            ;
        }
    } else {
        assert(n * 1 == n && i * 1 == i);
    }
}

} // verus!
