//! What the reductions over the elements of a part give.

use crate::d3plot::extract::{
    arg_fold, count_above, filled, flattened, gives, largest, largest_or_zero, law_largest,
    quantities,
};
use crate::d3plot::reader::D3plot;
use crate::d3plot::StateBlock;
use crate::element::record_in;
use crate::ieee::{double_eq, double_lt, is_nan};
use vstd::prelude::*;

verus! {

/// `q[k]` is the first of the largest values: no value is above it, and every number in
/// front of it is below it.
pub open spec fn is_first_largest(q: Seq<Option<u64>>, k: int) -> bool {
    &&& 0 <= k < q.len()
    &&& q[k] is Some
    &&& forall|i: int|
        0 <= i < q.len() && (#[trigger] q[i]) is Some ==> !double_lt(q[k]->0, q[i]->0)
    &&& forall|i: int|
        0 <= i < k && (#[trigger] q[i]) is Some && !is_nan(q[i]->0) ==> double_lt(
            q[i]->0,
            q[k]->0,
        )
}

/// Some value is a number above negative infinity.
pub open spec fn has_number(q: Seq<Option<u64>>) -> bool {
    exists|i: int|
        0 <= i < q.len() && (#[trigger] q[i]) is Some && double_lt(
            0xFFF0_0000_0000_0000,
            q[i]->0,
        )
}

/// The place and value of the largest value: the first of the largest ones, and its
/// value; the first place and negative infinity where no value is above that. The value
/// is then the largest of all.
pub proof fn law_first_largest(q: Seq<Option<u64>>)
    ensures
        has_number(q) ==> is_first_largest(q, arg_fold(q).0) && q[arg_fold(q).0] == Some(
            arg_fold(q).1,
        ),
        !has_number(q) ==> arg_fold(q) == (0int, 0xFFF0_0000_0000_0000u64),
        has_number(q) ==> largest(q) is Some && double_eq(largest(q)->0, arg_fold(q).1),
    decreases q.len(),
{
    if q.len() > 0 {
        let rest = q.drop_last();
        law_first_largest(rest);
        law_largest(q);
        let (k, m) = arg_fold(rest);
        let n = q.len() - 1;
        assert(q[n] == q.last());
        assert forall|i: int| 0 <= i < n implies q[i] == #[trigger] rest[i] by {}
        if has_number(rest) {
            let i = choose|i: int|
                0 <= i < rest.len() && (#[trigger] rest[i]) is Some && double_lt(
                    0xFFF0_0000_0000_0000,
                    rest[i]->0,
                );
            assert(q[i] == rest[i]);
            assert(has_number(q));
        } else if has_number(q) {
            let i = choose|i: int|
                0 <= i < q.len() && (#[trigger] q[i]) is Some && double_lt(
                    0xFFF0_0000_0000_0000,
                    q[i]->0,
                );
            if i < n {
                assert(rest[i] == q[i]);
            }
            assert(i == n);
        }
        let (a, v) = arg_fold(q);
        if has_number(q) {
            assert(q[a] == Some(v)) by {
                if a < n {
                    assert(q[a] == rest[a]);
                }
            }
            assert forall|i: int| 0 <= i < q.len() && (#[trigger] q[i]) is Some implies !double_lt(
                v,
                q[i]->0,
            ) by {
                if i < n {
                    assert(rest[i] == q[i]);
                    if !has_number(rest) {
                        assert(!double_lt(0xFFF0_0000_0000_0000, rest[i]->0));
                    } else {
                        assert(!double_lt(m, rest[i]->0));
                    }
                }
            }
            assert forall|i: int|
                0 <= i < a && (#[trigger] q[i]) is Some && !is_nan(q[i]->0) implies double_lt(
                q[i]->0,
                v,
            ) by {
                assert(rest[i] == q[i]);
                if a == n {
                    if !has_number(rest) {
                        assert(!double_lt(0xFFF0_0000_0000_0000, rest[i]->0));
                    } else {
                        assert(!double_lt(m, rest[i]->0));
                    }
                }
            }
            assert(q[a] is Some);
            assert(!double_lt(largest(q)->0, q[a]->0));
            let j = q.index_of(largest(q));
            assert(q[j] == largest(q));
            assert(!double_lt(v, q[j]->0));
            assert(is_nan(largest(q)->0) ==> is_nan(q[a]->0));
            assert(!is_nan(v));
        } else {
            if q.last() is Some {
                assert(!double_lt(0xFFF0_0000_0000_0000, q[n]->0));
            }
        }
    } else {
        assert(!has_number(q));
    }
}

/// The element of a part with the largest value in a state, and that value: no element of
/// the part has a value above it, and those in front of it are below it.
pub proof fn law_most_stressed_element<F: Fn(&[u64]) -> u64>(
    d: D3plot,
    f: F,
    block: StateBlock,
    idx: Seq<usize>,
    s: int,
    best: (usize, u64),
)
    requires
        d.is_part_argmax(f, block, idx, s, best),
        idx.len() > 0,
    ensures
        exists|q: Seq<Option<u64>>, k: int|
            {
                &&& #[trigger] quantities(f, d.records(block, s, idx), q)
                &&& 0 <= k < idx.len()
                &&& best.0 == #[trigger] idx[k]
                &&& has_number(q) ==> is_first_largest(q, k) && q[k] == Some(best.1)
                &&& !has_number(q) ==> k == 0 && best.1 == 0xFFF0_0000_0000_0000
            },
{
    let q = choose|q: Seq<Option<u64>>|
        #[trigger] quantities(f, d.records(block, s, idx), q) && best == (
            idx[arg_fold(q).0],
            arg_fold(q).1,
        );
    law_first_largest(q);
    let k = arg_fold(q).0;
    assert(quantities(f, d.records(block, s, idx), q) && best.0 == idx[k]);
}

/// The largest value of a part in a state is the value of one of its elements, and no
/// element of it has a value above; it is 0 where the part has no element.
pub proof fn law_largest_of_part<F: Fn(&[u64]) -> u64>(
    d: D3plot,
    f: F,
    block: StateBlock,
    idx: Seq<usize>,
    s: int,
    m: u64,
)
    requires
        d.is_part_max(f, block, idx, s, m),
    ensures
        exists|q: Seq<Option<u64>>|
            {
                &&& #[trigger] quantities(f, d.records(block, s, idx), q)
                &&& (exists|i: int| 0 <= i < q.len() && (#[trigger] q[i]) is Some) ==> q.contains(
                    Some(m),
                )
                &&& (forall|i: int| 0 <= i < q.len() ==> (#[trigger] q[i]) is None) ==> m == 0
                &&& forall|i: int|
                    0 <= i < q.len() && (#[trigger] q[i]) is Some ==> !double_lt(m, q[i]->0) && (
                    is_nan(m) ==> is_nan(q[i]->0))
            },
{
    let q = choose|q: Seq<Option<u64>>|
        #[trigger] quantities(f, d.records(block, s, idx), q) && m == largest_or_zero(q);
    law_largest(q);
    if largest(q) is Some {
        let k = q.index_of(largest(q));
        assert(q[k] is Some);
    }
}

/// Counting the values above a threshold is counting the places where one stands.
pub proof fn law_count_above(t: u64, q: Seq<Option<u64>>)
    ensures
        count_above(t, q) == q.filter(|x: Option<u64>| x is Some && double_lt(t, x->0)).len(),
    decreases q.len(),
{
    let above = |x: Option<u64>| x is Some && double_lt(t, x->0);
    reveal(Seq::filter);
    if q.len() > 0 {
        law_count_above(t, q.drop_last());
        assert(q.filter(above) == (if above(q.last()) {
            q.drop_last().filter(above).push(q.last())
        } else {
            q.drop_last().filter(above)
        }));
    }
}

proof fn lemma_rows_at(rows: Seq<Seq<Option<u64>>>, n: nat, s: int, i: int)
    requires
        forall|k: int| 0 <= k < rows.len() ==> (#[trigger] rows[k]).len() == n,
        0 <= s < rows.len(),
        0 <= i < n,
    ensures
        flattened(rows).len() == rows.len() * n,
        flattened(rows)[s * n + i] == (match rows[s][i] {
            Some(v) => v,
            None => 0,
        }),
    decreases rows.len(),
{
    let rest = rows.drop_last();
    let m = rest.len();
    assert(rows.last() == rows[m as int]);
    assert(rows.last().len() == n);
    assert forall|k: int| 0 <= k < rest.len() implies (#[trigger] rest[k]).len() == n by {
        assert(rest[k] == rows[k]);
    }
    assert(rows.len() * n == m * n + n) by (nonlinear_arith)
        requires
            rows.len() == m + 1,
    ;
    lemma_rows_len(rest, n);
    if s < m {
        lemma_rows_at(rest, n, s, i);
        assert(0 <= s * n + i < m * n) by (nonlinear_arith)
            requires
                0 <= s < m,
                0 <= i < n,
        ;
        assert(rest[s] == rows[s]);
    } else {
        assert(filled(rows.last())[i] == flattened(rows)[m * n + i]);
    }
}

proof fn lemma_rows_len(rows: Seq<Seq<Option<u64>>>, n: nat)
    requires
        forall|k: int| 0 <= k < rows.len() ==> (#[trigger] rows[k]).len() == n,
    ensures
        flattened(rows).len() == rows.len() * n,
    decreases rows.len(),
{
    if rows.len() > 0 {
        let rest = rows.drop_last();
        assert forall|k: int| 0 <= k < rest.len() implies (#[trigger] rest[k]).len() == n by {
            assert(rest[k] == rows[k]);
        }
        lemma_rows_len(rest, n);
        assert(rows[rows.len() - 1].len() == n);
        assert(rows.len() * n == rest.len() * n + n) by (nonlinear_arith)
            requires
                rows.len() == rest.len() + 1,
        ;
    } else {
        assert(0 * n == 0);
    }
}

/// The table of a part holds, state by state, the values of its elements in their order.
pub proof fn law_part_table<F: Fn(&[u64]) -> u64>(
    d: D3plot,
    f: F,
    block: StateBlock,
    idx: Seq<usize>,
    data: Seq<u64>,
    s: int,
    i: int,
)
    requires
        d.is_part_table(f, block, idx, data),
        0 <= s < d.states@.len(),
        0 <= i < idx.len(),
    ensures
        data.len() == d.states@.len() * idx.len(),
        match d.element_record(block, s, idx[i] as nat) {
            Some(rec) => gives(f, rec, data[s * idx.len() + i]),
            None => data[s * idx.len() + i] == 0,
        },
{
    let rows = choose|rows: Seq<Seq<Option<u64>>>|
        {
            &&& rows.len() == d.states@.len()
            &&& forall|s: int|
                0 <= s < rows.len() ==> quantities(
                    f,
                    d.records(block, s, idx),
                    #[trigger] rows[s],
                )
            &&& data == #[trigger] flattened(rows)
        };
    assert forall|k: int| 0 <= k < rows.len() implies (#[trigger] rows[k]).len() == idx.len() by {
        assert(quantities(f, d.records(block, k, idx), rows[k]));
    }
    lemma_rows_at(rows, idx.len(), s, i);
    assert(quantities(f, d.records(block, s, idx), rows[s]));
    assert(d.records(block, s, idx)[i] == d.element_record(block, s, idx[i] as nat));
}

/// The records of a block of states by elements by words follow each other: word `k` of
/// element `e` in state `s` has behind it the rest of the record, then the next element,
/// and behind the last element the next state.
pub proof fn law_record_place(data: Seq<u64>, n_elem: nat, nv: nat, s: int, e: int, k: int)
    requires
        0 <= s,
        0 <= e < n_elem,
        0 <= k < nv,
        s * (n_elem * nv) + e * nv + nv <= data.len(),
    ensures
        record_in(data, n_elem, nv, s, e).len() == nv,
        record_in(data, n_elem, nv, s, e)[k] == data[s * (n_elem * nv) + e * nv + k],
{
    assert((s * n_elem + e) * nv == s * (n_elem * nv) + e * nv) by (nonlinear_arith);
    assert(0 <= s * (n_elem * nv) + e * nv) by (nonlinear_arith)
        requires
            0 <= s,
            0 <= e,
    ;
}

} // verus!
