//! The level that an acceleration holds for a while. Samples are patterns of doubles.

use crate::d3plot::extract::NEG_INFINITY;
use crate::ieee::{double_eq, double_lt, equal, is_nan, less, order_key, DOUBLE_INF};
use vstd::prelude::*;

verus! {

/// `x >= y` as numbers; false when either is a NaN.
pub open spec fn at_least(x: u64, y: u64) -> bool {
    double_lt(y, x) || double_eq(x, y)
}

/// No sample from `lo` to before `hi` is a NaN.
pub open spec fn no_nan(a: Seq<u64>, lo: int, hi: int) -> bool {
    forall|t: int| lo <= t < hi ==> !is_nan(#[trigger] a[t])
}

/// The first NaN from `s` to before `e`, or `e`.
pub open spec fn first_nan(a: Seq<u64>, s: int, e: int) -> int
    decreases e - s,
{
    if s >= e || is_nan(a[s]) {
        s
    } else {
        first_nan(a, s + 1, e)
    }
}

/// The place of the least of the samples from `s` to before `p`, the last of equal
/// ones.
pub open spec fn last_min(a: Seq<u64>, s: int, p: int) -> int
    decreases p - s,
{
    if p <= s + 1 {
        s
    } else {
        let m = last_min(a, s, p - 1);
        if order_key(a[p - 1]) <= order_key(a[m]) {
            p - 1
        } else {
            m
        }
    }
}

/// The level that a window holds: the least of its samples, up to the first NaN.
/// `None` when a NaN leads it.
pub open spec fn level(a: Seq<u64>, s: int, e: int) -> Option<u64> {
    if is_nan(a[s]) {
        None
    } else {
        Some(a[last_min(a, s, first_nan(a, s, e))])
    }
}

/// The highest level of the first `k` windows of `w` samples.
pub open spec fn highest(a: Seq<u64>, w: nat, k: nat) -> u64
    decreases k,
{
    if k == 0 {
        NEG_INFINITY
    } else {
        let rest = highest(a, w, (k - 1) as nat);
        match level(a, k - 1, k - 1 + w) {
            Some(v) => if double_lt(rest, v) {
                v
            } else {
                rest
            },
            None => rest,
        }
    }
}

/// The least of the first `n` samples, positive infinity for none; NaNs do not count.
pub open spec fn least(a: Seq<u64>, n: nat) -> u64
    decreases n,
{
    if n == 0 {
        DOUBLE_INF
    } else {
        let rest = least(a, (n - 1) as nat);
        if double_lt(a[n - 1], rest) {
            a[n - 1]
        } else {
            rest
        }
    }
}

/// The level that a signal holds for `w` samples.
pub open spec fn held(a: Seq<u64>, w: nat) -> u64 {
    if a.len() == 0 {
        0
    } else if w >= a.len() {
        least(a, a.len())
    } else {
        highest(a, w, (a.len() - w + 1) as nat)
    }
}

/// Sample `j` lies below sample `k` before it, with no NaN between them.
pub open spec fn undercuts(a: Seq<u64>, k: int, j: int) -> bool {
    k < j && at_least(a[k], a[j]) && no_nan(a, k + 1, j)
}

/// A sample up to `i` undercuts sample `k`.
pub open spec fn undercut(a: Seq<u64>, k: int, i: int) -> bool {
    exists|j: int| j <= i && #[trigger] undercuts(a, k, j)
}

proof fn lemma_first_nan(a: Seq<u64>, s: int, e: int)
    requires
        s <= e,
    ensures
        s <= first_nan(a, s, e) <= e,
        no_nan(a, s, first_nan(a, s, e)),
        first_nan(a, s, e) < e ==> is_nan(a[first_nan(a, s, e)]),
    decreases e - s,
{
    if s < e && !is_nan(a[s]) {
        lemma_first_nan(a, s + 1, e);
    }
}

proof fn lemma_last_min(a: Seq<u64>, s: int, p: int)
    requires
        s < p,
    ensures
        s <= last_min(a, s, p) < p,
        forall|k: int|
            s <= k < p ==> order_key(#[trigger] a[k]) >= order_key(a[last_min(a, s, p)]),
        forall|k: int|
            last_min(a, s, p) < k < p ==> order_key(#[trigger] a[k]) > order_key(
                a[last_min(a, s, p)],
            ),
    decreases p - s,
{
    if p > s + 1 {
        lemma_last_min(a, s, p - 1);
    }
}

/// The first sample of a window that none undercuts holds the level of the window.
proof fn lemma_front(a: Seq<u64>, s: int, i: int, f: int)
    requires
        0 <= s <= f <= i < a.len(),
        !undercut(a, f, i),
        forall|k: int| s <= k < f ==> #[trigger] undercut(a, k, i),
    ensures
        is_nan(a[s]) ==> f == s,
        !is_nan(a[s]) ==> level(a, s, i + 1) == Some(a[f]),
{
    if is_nan(a[s]) {
        if s < f {
            assert(undercut(a, s, i));
            let j = choose|j: int| j <= i && #[trigger] undercuts(a, s, j);
            assert(at_least(a[s], a[j]));
        }
    } else {
        let p = first_nan(a, s, i + 1);
        lemma_first_nan(a, s, i + 1);
        if p == s {
            assert(is_nan(a[s]));
        }
        lemma_last_min(a, s, p);
        let m = last_min(a, s, p);
        if m < f {
            assert(undercut(a, m, i));
            let j = choose|j: int| j <= i && #[trigger] undercuts(a, m, j);
            if j < p {
                assert(order_key(a[j]) > order_key(a[m]));
            } else if j == p {
                assert(is_nan(a[p]));
            } else {
                assert(is_nan(a[p]));
                assert(no_nan(a, m + 1, j));
            }
            assert(false);
        }
        if f < m {
            assert(!is_nan(a[f]) && !is_nan(a[m]));
            assert(undercuts(a, f, m));
            assert(undercut(a, f, i));
        }
    }
}

fn not_below(x: u64, y: u64) -> (r: bool)
    ensures
        r == at_least(x, y),
{
    less(y, x) || equal(x, y)
}

/// The entries of the queue from `head` on grow, lie in the window of `w` samples
/// before `i`, and are just those of its samples that none before `i` undercuts.
pub open spec fn is_queue(a: Seq<u64>, w: int, q: Seq<usize>, head: int, i: int) -> bool {
    &&& 0 <= head <= q.len()
    &&& forall|x: int, y: int| head <= x < y < q.len() ==> q[x] < q[y]
    &&& forall|x: int|
        head <= x < q.len() ==> (#[trigger] q[x]) < i && q[x] + w >= i && !undercut(
            a,
            q[x] as int,
            i - 1,
        )
    &&& forall|k: int|
        0 <= k < i && k + w >= i && !#[trigger] undercut(a, k, i - 1) ==> in_queue(q, head, k)
}

pub open spec fn in_queue(q: Seq<usize>, head: int, k: int) -> bool {
    exists|x: int| head <= x < q.len() && #[trigger] q[x] == k
}

/// A queue with sample `i` at its end, whose first entry may have left the window.
pub open spec fn is_pushed(a: Seq<u64>, w: int, n: Seq<usize>, head: int, i: int) -> bool {
    &&& 0 <= head < n.len()
    &&& n.last() == i
    &&& forall|x: int, y: int| head <= x < y < n.len() ==> n[x] < n[y]
    &&& forall|x: int|
        head <= x < n.len() ==> (#[trigger] n[x]) < i + 1 && n[x] + w >= i && !undercut(
            a,
            n[x] as int,
            i,
        )
    &&& forall|k: int|
        0 <= k < i + 1 && k + w >= i && !#[trigger] undercut(a, k, i) ==> in_queue(n, head, k)
}

/// What letting the first entry go does, where it has left the window.
proof fn lemma_expire(a: Seq<u64>, w: int, n: Seq<usize>, head: int, h: int, i: int)
    requires
        is_pushed(a, w, n, head, i),
        w >= 1,
        h == if n[head] + w <= i {
            head + 1
        } else {
            head
        },
    ensures
        is_queue(a, w, n, h, i + 1),
        h < n.len(),
{
    assert forall|x: int| h <= x < n.len() implies (#[trigger] n[x]) < i + 1 && n[x] + w >= i + 1
        && !undercut(a, n[x] as int, i) by {
        if x > head {
            assert(n[head] < n[x]);
        }
    }
    assert forall|k: int|
        0 <= k < i + 1 && k + w >= i + 1 && !#[trigger] undercut(a, k, i) implies in_queue(
        n,
        h,
        k,
    ) by {
        assert(in_queue(n, head, k));
        let x = choose|x: int| head <= x < n.len() && #[trigger] n[x] == k;
        assert(n[x] == k);
        assert(x >= h);
    }
    if h == n.len() {
        assert(n[head] == i);
    }
}

/// What pushing sample `i` does to the queue, once those at its end that the sample
/// undercuts have left.
proof fn lemma_push(a: Seq<u64>, w: int, q: Seq<usize>, head: int, m: int, i: int)
    requires
        is_queue(a, w, q, head, i),
        head <= m <= q.len(),
        0 <= i < a.len(),
        i <= usize::MAX,
        w >= 1,
        forall|x: int| m <= x < q.len() ==> at_least(a[#[trigger] q[x] as int], a[i]),
        m > head ==> !at_least(a[q[m - 1] as int], a[i]),
    ensures
        is_pushed(a, w, q.take(m).push(i as usize), head, i),
{
    let n = q.take(m).push(i as usize);
    assert forall|x: int| head <= x < n.len() implies (#[trigger] n[x]) < i + 1 && n[x] + w >= i
        && !undercut(a, n[x] as int, i) by {
        if x < m {
            let k = q[x] as int;
            assert(n[x] == q[x]);
            if undercut(a, k, i) {
                let j = choose|j: int| j <= i && #[trigger] undercuts(a, k, j);
                if j <= i - 1 {
                    assert(undercut(a, k, i - 1));
                } else {
                    let b = q[m - 1] as int;
                    assert(j == i);
                    if b != k {
                        assert(q[x] < q[m - 1]);
                        assert(!undercuts(a, k, b)) by {
                            if undercuts(a, k, b) {
                                assert(undercut(a, k, i - 1));
                            }
                        }
                        assert(no_nan(a, k + 1, b));
                        assert(!is_nan(a[b]));
                    }
                    assert(false);
                }
            }
        } else {
            assert(n[x] == i);
            if undercut(a, i, i) {
                let j = choose|j: int| j <= i && #[trigger] undercuts(a, i, j);
                assert(false);
            }
        }
    }
    assert forall|k: int|
        0 <= k < i + 1 && k + w >= i && !#[trigger] undercut(a, k, i) implies in_queue(
        n,
        head,
        k,
    ) by {
        if k == i {
            assert(n[m] == i);
        } else {
            if undercut(a, k, i - 1) {
                let j = choose|j: int| j <= i - 1 && #[trigger] undercuts(a, k, j);
                assert(undercut(a, k, i));
            }
            assert(in_queue(q, head, k));
            let x = choose|x: int| head <= x < q.len() && #[trigger] q[x] == k;
            if x < m {
                assert(n[x] == k);
            } else {
                assert(at_least(a[q[x] as int], a[i]));
                assert(no_nan(a, k + 1, i)) by {
                    assert forall|t: int| k + 1 <= t < i implies !is_nan(#[trigger] a[t]) by {
                        if is_nan(a[t]) {
                            if undercut(a, t, i - 1) {
                                let j = choose|j: int| j <= i - 1 && #[trigger] undercuts(a, t, j);
                                assert(at_least(a[t], a[j]));
                            }
                            assert(in_queue(q, head, t));
                            let y = choose|y: int| head <= y < q.len() && #[trigger] q[y] == t;
                            if y < x {
                                assert(q[y] < q[x]);
                            }
                            assert(y >= m);
                            assert(at_least(a[q[y] as int], a[i]));
                        }
                    }
                }
                assert(undercuts(a, k, i));
                assert(undercut(a, k, i));
            }
        }
    }
    assert forall|x: int, y: int| head <= x < y < n.len() implies n[x] < n[y] by {
        if y < m {
            assert(q[x] < q[y]);
        } else {
            assert(q[x] < i);
        }
    }
}

/// Lets sample `i` into the queue, and those out that it undercuts or that are no
/// longer in the window.
fn advance(a: &[u64], w: usize, q: &mut Vec<usize>, head: usize, i: usize) -> (h: usize)
    requires
        is_queue(a@, w as int, old(q)@, head as int, i as int),
        i < a@.len(),
        w >= 1,
    ensures
        is_queue(a@, w as int, final(q)@, h as int, i + 1),
        h < final(q)@.len(),
{
    let ghost old_q = q@;
    let ghost mut m: int = q@.len() as int;
    assert(old_q.take(m) =~= old_q);
    let mut go: bool = q.len() > head && not_below(a[q[q.len() - 1]], a[i]);
    while go
        invariant
            i < a@.len(),
            is_queue(a@, w as int, old_q, head as int, i as int),
            head <= m <= old_q.len(),
            q@ == old_q.take(m),
            go == (m > head && at_least(a@[old_q[m - 1] as int], a@[i as int])),
            forall|x: int|
                m <= x < old_q.len() ==> at_least(
                    a@[#[trigger] old_q[x] as int],
                    a@[i as int],
                ),
        decreases q@.len(),
    {
        q.pop();
        proof {
            m = m - 1;
            assert(q@ =~= old_q.take(m));
        }
        go = if q.len() > head {
            assert(old_q[m - 1] < i);
            not_below(a[q[q.len() - 1]], a[i])
        } else {
            false
        };
    }
    proof {
        lemma_push(a@, w as int, old_q, head as int, m, i as int);
    }
    q.push(i);
    assert(q@ =~= old_q.take(m).push(i));
    let h: usize = if i >= w && q[head] <= i - w { head + 1 } else { head };
    proof {
        lemma_expire(a@, w as int, q@, head as int, h as int, i as int);
    }
    h
}

/// The highest level that a signal holds for `w` samples in a row: the largest over
/// all windows of the least sample in each. A signal no longer than the window gives
/// its least sample, and an empty one 0.
pub fn clip(a: &[u64], w: usize) -> (r: u64)
    requires
        w >= 1,
    ensures
        r == held(a@, w as nat),
{
    let n: usize = a.len();
    if n == 0 {
        return 0;
    }
    if w >= n {
        let mut m: u64 = DOUBLE_INF;
        for i in 0..n
            invariant
                n == a@.len(),
                m == least(a@, i as nat),
        {
            if less(a[i], m) {
                m = a[i];
            }
        }
        return m;
    }
    let mut q: Vec<usize> = Vec::new();
    let mut head: usize = 0;
    let mut best: u64 = NEG_INFINITY;
    for i in 0..n
        invariant
            n == a@.len(),
            1 <= w < n,
            is_queue(a@, w as int, q@, head as int, i as int),
            best == highest(
                a@,
                w as nat,
                if i >= w {
                    (i - w + 1) as nat
                } else {
                    0
                },
            ),
    {
        head = advance(a, w, &mut q, head, i);
        if i + 1 >= w {
            let f: usize = q[head];
            proof {
                let s = i + 1 - w;
                assert forall|k: int| s <= k < f implies #[trigger] undercut(a@, k, i as int) by {
                    if !undercut(a@, k, i as int) {
                        assert(in_queue(q@, head as int, k));
                        let x = choose|x: int|
                            head <= x < q@.len() && #[trigger] q@[x] == k;
                        if x > head {
                            assert(q@[head as int] < q@[x]);
                        }
                    }
                }
                assert(q@[head as int] < i + 1);
                lemma_front(a@, s, i as int, f as int);
            }
            if less(best, a[f]) {
                best = a[f];
            }
            proof {
                let k = (i + 1 - w + 1) as nat;
                assert(k - 1 + w == i + 1);
                let rest = highest(a@, w as nat, (k - 1) as nat);
                assert(best == highest(a@, w as nat, k));
            }
        }
    }
    best
}

/// A level that is held for a longer time is held for a shorter one: where no sample
/// is a NaN, a longer window does not give a higher level.
pub proof fn law_level_in_longer_window(a: Seq<u64>, s: int, e: int, t: int, u: int)
    requires
        0 <= s <= t < u <= e <= a.len(),
        no_nan(a, 0, a.len() as int),
    ensures
        level(a, s, e) matches Some(x) && level(a, t, u) matches Some(y) && !double_lt(y, x),
{
    lemma_first_nan(a, s, e);
    lemma_first_nan(a, t, u);
    assert(first_nan(a, s, e) == e) by {
        if first_nan(a, s, e) < e {
            assert(is_nan(a[first_nan(a, s, e)]));
        }
    }
    assert(first_nan(a, t, u) == u) by {
        if first_nan(a, t, u) < u {
            assert(is_nan(a[first_nan(a, t, u)]));
        }
    }
    lemma_last_min(a, s, e);
    lemma_last_min(a, t, u);
    assert(!is_nan(a[s]) && !is_nan(a[t]));
    let m = last_min(a, t, u);
    assert(order_key(a[m]) >= order_key(a[last_min(a, s, e)]));
}

/// None of the `n` samples from `s` on is below `x`.
pub open spec fn stays_above(a: Seq<u64>, s: int, n: int, x: u64) -> bool {
    forall|t: int| s <= t < s + n ==> !double_lt(#[trigger] a[t], x)
}

/// One of the `n` samples from `s` on is not above `x`.
pub open spec fn falls_to(a: Seq<u64>, s: int, n: int, x: u64) -> bool {
    exists|t: int| s <= t < s + n && !double_lt(x, #[trigger] a[t])
}

proof fn lemma_level(a: Seq<u64>, s: int, e: int)
    requires
        0 <= s < e <= a.len(),
        no_nan(a, 0, a.len() as int),
    ensures
        level(a, s, e) is Some,
        !is_nan(level(a, s, e)->0),
        stays_above(a, s, e - s, level(a, s, e)->0),
        exists|t: int| s <= t < e && #[trigger] a[t] == level(a, s, e)->0,
{
    lemma_first_nan(a, s, e);
    assert(first_nan(a, s, e) == e) by {
        if first_nan(a, s, e) < e {
            assert(is_nan(a[first_nan(a, s, e)]));
        }
    }
    lemma_last_min(a, s, e);
    assert(!is_nan(a[s]));
    let m = last_min(a, s, e);
    assert(a[m] == level(a, s, e)->0);
}

proof fn lemma_highest(a: Seq<u64>, w: nat, k: nat)
    requires
        w >= 1,
        k >= 1,
        k - 1 + w <= a.len(),
        no_nan(a, 0, a.len() as int),
    ensures
        !is_nan(highest(a, w, k)),
        exists|s: int| 0 <= s < k && #[trigger] stays_above(a, s, w as int, highest(a, w, k)),
        forall|s: int| 0 <= s < k ==> #[trigger] falls_to(a, s, w as int, highest(a, w, k)),
    decreases k,
{
    let x = highest(a, w, k);
    let rest = highest(a, w, (k - 1) as nat);
    let v = level(a, k - 1, k - 1 + w)->0;
    lemma_level(a, k - 1, k - 1 + w);
    let at = choose|t: int| k - 1 <= t < k - 1 + w && #[trigger] a[t] == v;
    if k > 1 {
        lemma_highest(a, w, (k - 1) as nat);
        assert forall|s: int| 0 <= s < k implies #[trigger] falls_to(a, s, w as int, x) by {
            if s < k - 1 {
                assert(falls_to(a, s, w as int, rest));
                let t = choose|t: int| s <= t < s + w && !double_lt(rest, #[trigger] a[t]);
                assert(!double_lt(x, a[t]));
            } else {
                assert(!double_lt(x, a[at]));
            }
        }
        if !double_lt(rest, v) {
            let s = choose|s: int| 0 <= s < k - 1 && #[trigger] stays_above(a, s, w as int, rest);
            assert(stays_above(a, s, w as int, x));
        } else {
            assert(stays_above(a, k - 1, w as int, x));
        }
    } else {
        reveal_with_fuel(highest, 2);
        assert(order_key(NEG_INFINITY) == 0x8000_0000_0000_0000 - 0xFFF0_0000_0000_0000);
        assert(!is_nan(NEG_INFINITY));
        assert(!double_lt(x, a[at]));
        assert(falls_to(a, 0, w as int, x));
        assert(stays_above(a, 0, w as int, x));
    }
}

proof fn lemma_least(a: Seq<u64>, n: nat)
    requires
        n <= a.len(),
        no_nan(a, 0, a.len() as int),
    ensures
        !is_nan(least(a, n)),
        stays_above(a, 0, n as int, least(a, n)),
        n > 0 ==> falls_to(a, 0, n as int, least(a, n)),
    decreases n,
{
    if n > 0 {
        let m = (n - 1) as nat;
        lemma_least(a, m);
        let x = least(a, n);
        if double_lt(a[m as int], least(a, m)) {
            assert(!double_lt(x, a[n - 1]));
        } else if m > 0 {
            let t = choose|t: int| 0 <= t < m && !double_lt(least(a, m), #[trigger] a[t]);
            assert(!double_lt(x, a[t]));
        } else {
            assert(!is_nan(a[0]));
            assert(order_key(a[0]) <= order_key(DOUBLE_INF));
            assert(!double_lt(x, a[0]));
        }
    }
}

/// `w` samples, or all of a shorter signal.
pub open spec fn run_length(a: Seq<u64>, w: nat) -> int {
    if w < a.len() {
        w as int
    } else {
        a.len() as int
    }
}

/// The level that a signal holds: over one run of `w` samples, or over all of a shorter
/// signal, no sample is below it, and every such run falls to it or lower.
pub proof fn law_held(a: Seq<u64>, w: nat)
    requires
        a.len() > 0,
        w >= 1,
        no_nan(a, 0, a.len() as int),
    ensures
        exists|s: int|
            0 <= s <= a.len() - run_length(a, w) && #[trigger] stays_above(
                a,
                s,
                run_length(a, w),
                held(a, w),
            ),
        forall|s: int|
            0 <= s <= a.len() - run_length(a, w) ==> #[trigger] falls_to(
                a,
                s,
                run_length(a, w),
                held(a, w),
            ),
{
    let x = held(a, w);
    if w < a.len() {
        let n = w as int;
        let k = (a.len() - w + 1) as nat;
        lemma_highest(a, w, k);
        let s = choose|s: int| 0 <= s < k && #[trigger] stays_above(a, s, w as int, x);
        assert(0 <= s <= a.len() - n && stays_above(a, s, run_length(a, w), held(a, w)));
        assert forall|s: int| 0 <= s <= a.len() - n implies #[trigger] falls_to(a, s, n, x) by {
            assert(falls_to(a, s, w as int, highest(a, w, k)));
        }
    } else {
        let n = a.len() as int;
        lemma_least(a, a.len());
        assert(stays_above(a, 0, run_length(a, w), held(a, w)));
        assert forall|s: int| 0 <= s <= a.len() - n implies #[trigger] falls_to(a, s, n, x) by {
            assert(s == 0);
            assert(falls_to(a, 0, n, x));
        }
    }
}

} // verus!
