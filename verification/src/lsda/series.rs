//! One number of a time series.

use crate::ieee::{double_lt, is_nan, less, order_key};
use crate::lsda::ScalarExtract;
use vstd::prelude::*;

verus! {

/// The pattern of minus infinity.
pub const NEG_INFINITY: u64 = 0xFFF0_0000_0000_0000;

/// The pattern of infinity.
pub const INFINITY: u64 = 0x7FF0_0000_0000_0000;

/// The sign of a double.
pub const SIGN: u64 = 0x8000_0000_0000_0000;

/// The absolute value of a double.
pub open spec fn magnitude(x: u64) -> u64 {
    if x >= SIGN {
        (x - SIGN) as u64
    } else {
        x
    }
}

/// No value is greater than `r`, which is one of them, or minus infinity. What is
/// not a number does not count.
pub open spec fn is_max(s: Seq<u64>, r: u64) -> bool {
    &&& !is_nan(r)
    &&& r == NEG_INFINITY || s.contains(r)
    &&& forall|i: int| 0 <= i < s.len() ==> !double_lt(r, #[trigger] s[i])
}

/// No value is less than `r`, which is one of them, or infinity.
pub open spec fn is_min(s: Seq<u64>, r: u64) -> bool {
    &&& !is_nan(r)
    &&& r == INFINITY || s.contains(r)
    &&& forall|i: int| 0 <= i < s.len() ==> !double_lt(#[trigger] s[i], r)
}

/// The absolute values.
pub open spec fn magnitudes(s: Seq<u64>) -> Seq<u64> {
    Seq::new(s.len(), |i: int| magnitude(s[i]))
}

/// No absolute value is greater than `r`, which is one of them, or 0.
pub open spec fn is_abs_max(s: Seq<u64>, r: u64) -> bool {
    &&& !is_nan(r)
    &&& r == 0 || magnitudes(s).contains(r)
    &&& forall|i: int| 0 <= i < s.len() ==> !double_lt(r, magnitude(#[trigger] s[i]))
}

/// `r` is the number that is picked of a series.
pub open spec fn is_pick(s: Seq<u64>, method: ScalarExtract, r: Option<u64>) -> bool {
    if s.len() == 0 {
        r == Some(0u64)
    } else {
        match method {
            ScalarExtract::Last => r == Some(s.last()),
            ScalarExtract::First => r == Some(s[0]),
            ScalarExtract::Max => r is Some && is_max(s, r->0),
            ScalarExtract::Min => r is Some && is_min(s, r->0),
            ScalarExtract::AbsMax => r is Some && is_abs_max(s, r->0),
            ScalarExtract::Mean | ScalarExtract::Integral => r is None,
        }
    }
}

/// Picks one number of a series by order or place; 0 of an empty series. Means and
/// integrals are no picks.
pub fn pick_scalar(values: &[u64], method: ScalarExtract) -> (r: Option<u64>)
    ensures
        is_pick(values@, method, r),
{
    if values.len() == 0 {
        return Some(0);
    }
    match method {
        ScalarExtract::Last => Some(values[values.len() - 1]),
        ScalarExtract::First => Some(values[0]),
        ScalarExtract::Max => {
            let mut best: u64 = NEG_INFINITY;
            for i in 0..values.len()
                invariant
                    !is_nan(best),
                    best == NEG_INFINITY || values@.contains(best),
                    forall|k: int| 0 <= k < i ==> !double_lt(best, #[trigger] values@[k]),
            {
                let v: u64 = values[i];
                if less(best, v) {
                    best = v;
                }
                assert(values@[i as int] == v);
            }
            Some(best)
        },
        ScalarExtract::Min => {
            let mut best: u64 = INFINITY;
            for i in 0..values.len()
                invariant
                    !is_nan(best),
                    best == INFINITY || values@.contains(best),
                    forall|k: int| 0 <= k < i ==> !double_lt(#[trigger] values@[k], best),
            {
                let v: u64 = values[i];
                if less(v, best) {
                    best = v;
                }
                assert(values@[i as int] == v);
            }
            Some(best)
        },
        ScalarExtract::AbsMax => {
            let mut best: u64 = 0;
            for i in 0..values.len()
                invariant
                    !is_nan(best),
                    best == 0 || magnitudes(values@).contains(best),
                    forall|k: int| 0 <= k < i ==> !double_lt(best, magnitude(#[trigger] values@[k])),
            {
                let v: u64 = values[i];
                let m: u64 = if v >= SIGN { v - SIGN } else { v };
                assert(magnitudes(values@)[i as int] == m);
                if less(best, m) {
                    best = m;
                }
            }
            Some(best)
        },
        ScalarExtract::Mean | ScalarExtract::Integral => None,
    }
}

/// The first and the last number of a series are picked by place. The largest is one of the
/// numbers, and none is above it; the least is one of them, and none is below it; and the
/// largest magnitude is that of one, and none has a larger one.
pub proof fn law_picks(s: Seq<u64>, r: Option<u64>, method: ScalarExtract, i: int)
    requires
        is_pick(s, method, r),
        0 <= i < s.len(),
        !is_nan(s[i]),
    ensures
        method is First ==> r == Some(s[0]),
        method is Last ==> r == Some(s[s.len() - 1]),
        method is Mean || method is Integral ==> r is None,
        method is Max ==> {
            let x = r->0;
            r is Some && order_key(s[i]) <= order_key(x) && exists|k: int|
                0 <= k < s.len() && order_key(#[trigger] s[k]) == order_key(x)
        },
        method is Min ==> {
            let x = r->0;
            r is Some && order_key(x) <= order_key(s[i]) && exists|k: int|
                0 <= k < s.len() && order_key(#[trigger] s[k]) == order_key(x)
        },
        method is AbsMax ==> {
            let x = r->0;
            let size = order_key(s[i]);
            r is Some && -order_key(x) <= size <= order_key(x) && exists|k: int|
                0 <= k < s.len() && (order_key(#[trigger] s[k]) == order_key(x) || order_key(s[k])
                    == -order_key(x))
        },
{
    let x = r->0;
    if method is Max {
        assert(!double_lt(x, s[i]));
        if x == NEG_INFINITY {
            assert(order_key(s[i]) >= order_key(NEG_INFINITY));
        } else {
            let k = choose|k: int| 0 <= k < s.len() && s[k] == x;
            assert(order_key(s[k]) == order_key(x));
        }
    }
    if method is Min {
        assert(!double_lt(s[i], x));
        if x == INFINITY {
            assert(order_key(s[i]) <= order_key(INFINITY));
        } else {
            let k = choose|k: int| 0 <= k < s.len() && s[k] == x;
            assert(order_key(s[k]) == order_key(x));
        }
    }
    if method is AbsMax {
        let m = magnitude(s[i]);
        assert(order_key(m) == m && (order_key(s[i]) == m || order_key(s[i]) == -m));
        assert(!is_nan(m));
        assert(!double_lt(x, m));
        if x == 0 {
            assert(order_key(s[i]) == order_key(x));
        } else {
            let k = choose|k: int| 0 <= k < magnitudes(s).len() && magnitudes(s)[k] == x;
            assert(magnitude(s[k]) == x);
            assert(order_key(s[k]) == order_key(x) || order_key(s[k]) == -order_key(x));
        }
    }
}

} // verus!
