//! Chains of symbol tables: those that end, and those that run in a circle.

use crate::lsda::arena::{went, Cursor};
use crate::lsda::diskfile::{command_at, value_at};
use crate::lsda::table::{declared, endless, entry_of, records, tables, Sizes, BEGINSYMBOLTABLE};
use crate::text::text_of;
use vstd::prelude::*;

verus! {

/// The position behind the last command of a table, whatever it declares.
pub open spec fn table_end(b: Seq<u8>, h: Sizes, pos: int) -> Option<int>
    decreases b.len() - pos,
{
    match command_at(b, pos, h.length, h.le) {
        Err(_) => None,
        Ok(x) => {
            let at = pos + h.length + 1;
            let n = x.0 - (h.command + h.length);
            if n < 0 {
                None
            } else if x.1 != 2 && x.1 != 4 {
                Some(at)
            } else if at + n > b.len() {
                None
            } else if x.1 == 4 && entry_of(
                b.subrange(at, at + n),
                (h.type_ + h.offset + h.length) as nat,
                h.type_,
                h.offset,
                h.length,
                h.le,
            ) is Err {
                None
            } else {
                table_end(b, h, at + n)
            }
        },
    }
}

/// The records end where `table_end` says.
proof fn lemma_records_end(b: Seq<u8>, h: Sizes, pos: int, c: Cursor, fi: int)
    ensures
        match records(b, h, pos, c, fi) {
            Ok(y) => table_end(b, h, pos) == Some(y.1),
            Err(_) => table_end(b, h, pos) is None,
        },
    decreases b.len() - pos,
{
    if let Ok(x) = command_at(b, pos, h.length, h.le) {
        let at = pos + h.length + 1;
        let n = x.0 - (h.command + h.length);
        if n >= 0 && at + n <= b.len() {
            if x.1 == 2 {
                let path = vstd::utf8::encode_utf8(text_of(b.subrange(at, at + n)));
                lemma_records_end(b, h, at + n, went(c, path), fi);
            } else if x.1 == 4 {
                if let Ok(e) = entry_of(
                    b.subrange(at, at + n),
                    (h.type_ + h.offset + h.length) as nat,
                    h.type_,
                    h.offset,
                    h.length,
                    h.le,
                ) {
                    lemma_records_end(b, h, at + n, declared(c, e, fi), fi);
                }
            }
        }
    }
}

/// The place of the table that the pointer at `pos` leads to.
pub open spec fn target(b: Seq<u8>, h: Sizes, pos: int) -> Option<int> {
    match value_at(b, pos, h.offset, h.le) {
        Err(_) => None,
        Ok(at) => if at == 0 || at > b.len() {
            None
        } else {
            match command_at(b, at as int, h.length, h.le) {
                Err(_) => None,
                Ok(x) => if x.1 == BEGINSYMBOLTABLE {
                    Some(at as int)
                } else {
                    None
                },
            }
        },
    }
}

/// The position of the pointer behind the table that the pointer at `pos` leads to.
pub open spec fn hop(b: Seq<u8>, h: Sizes, pos: int) -> Option<int> {
    match target(b, h, pos) {
        Some(at) => table_end(b, h, at + h.length + 1),
        None => None,
    }
}

/// The position of the pointer behind `k` tables; `None` when the chain ends before.
pub open spec fn hops(b: Seq<u8>, h: Sizes, pos: int, k: nat) -> Option<int>
    decreases k,
{
    if k == 0 {
        Some(pos)
    } else {
        match hop(b, h, pos) {
            Some(q) => hops(b, h, q, (k - 1) as nat),
            None => None,
        }
    }
}

proof fn lemma_hops_add(b: Seq<u8>, h: Sizes, pos: int, j: nat, k: nat)
    ensures
        hops(b, h, pos, j + k) == match hops(b, h, pos, j) {
            Some(q) => hops(b, h, q, k),
            None => None,
        },
    decreases j,
{
    if j > 0 {
        if let Some(q) = hop(b, h, pos) {
            lemma_hops_add(b, h, q, (j - 1) as nat, k);
        }
    }
}

/// A chain that comes back to where it was never ends.
proof fn lemma_circle(b: Seq<u8>, h: Sizes, p: int, d: nat, n: nat)
    requires
        d > 0,
        hops(b, h, p, d) == Some(p),
    ensures
        hops(b, h, p, n) is Some,
    decreases n,
{
    if n < d {
        lemma_hops_add(b, h, p, n, (d - n) as nat);
    } else {
        lemma_hops_add(b, h, p, d, (n - d) as nat);
        lemma_circle(b, h, p, d, (n - d) as nat);
    }
}

/// The places of the first `n` tables.
pub open spec fn places(b: Seq<u8>, h: Sizes, pos: int, n: nat) -> Seq<int> {
    Seq::new(n, |k: int| target(b, h, hops(b, h, pos, k as nat)->0)->0)
}

/// A chain with more tables than the file has bytes never ends: two of its tables are
/// at the same place.
proof fn lemma_long_chain(b: Seq<u8>, h: Sizes, pos: int, n: nat)
    requires
        hops(b, h, pos, b.len() + 1) is Some,
    ensures
        hops(b, h, pos, n) is Some,
{
    let m = b.len() + 1;
    let at = places(b, h, pos, m);
    assert forall|k: int| 0 <= k < m implies {
        let p = hops(b, h, pos, k as nat);
        &&& p is Some
        &&& target(b, h, p->0) is Some
        &&& hops(b, h, pos, (k + 1) as nat) == table_end(b, h, #[trigger] at[k] + h.length + 1)
        &&& 1 <= at[k] <= b.len()
    } by {
        lemma_hops_add(b, h, pos, k as nat, (m - k) as nat);
        lemma_hops_add(b, h, pos, k as nat, 1);
        let p = hops(b, h, pos, k as nat)->0;
        assert(hops(b, h, p, (m - k) as nat) is Some);
        reveal_with_fuel(hops, 2);
    }
    if at.no_duplicates() {
        at.unique_seq_to_set();
        let all = vstd::set_lib::set_int_range(1, m as int);
        vstd::set_lib::lemma_int_range(1, m as int);
        assert forall|x: int| at.to_set().contains(x) implies all.contains(x) by {
            let k = choose|k: int| 0 <= k < at.len() && at[k] == x;
            assert(1 <= at[k] <= b.len());
        }
        vstd::set_lib::lemma_len_subset(at.to_set(), all);
        assert(false);
    }
    let (i, j) = choose|i: int, j: int|
        0 <= i < at.len() && 0 <= j < at.len() && i != j && at[i] == at[j];
    let lo: int = if i < j {
        i
    } else {
        j
    };
    let hi: int = if i < j {
        j
    } else {
        i
    };
    assert(at[lo] == at[hi]);
    let first = (lo + 1) as nat;
    let d = (hi - lo) as nat;
    lemma_hops_add(b, h, pos, (hi + 1) as nat, (m - (hi + 1)) as nat);
    assert(hops(b, h, pos, first) == hops(b, h, pos, (hi + 1) as nat));
    let p = hops(b, h, pos, first)->0;
    lemma_hops_add(b, h, pos, first, d);
    if n <= first {
        lemma_hops_add(b, h, pos, n, (first - n) as nat);
    } else {
        lemma_circle(b, h, p, d, (n - first) as nat);
        lemma_hops_add(b, h, pos, first, (n - first) as nat);
    }
}

/// A chain that goes on to the limit is refused; one that ends before it is read to
/// its end, and a higher limit changes nothing.
proof fn lemma_limit(b: Seq<u8>, h: Sizes, pos: int, c: Cursor, fi: int, limit: nat, more: nat)
    ensures
        hops(b, h, pos, limit) is Some ==> tables(b, h, pos, c, fi, limit) == Err::<Cursor, _>(
            endless(),
        ),
        hops(b, h, pos, limit) is None ==> tables(b, h, pos, c, fi, limit + more) == tables(
            b,
            h,
            pos,
            c,
            fi,
            limit,
        ),
    decreases limit,
{
    if limit > 0 {
        if let Some(at) = target(b, h, pos) {
            lemma_records_end(b, h, at + h.length + 1, c, fi);
            if let Ok(y) = records(b, h, at + h.length + 1, c, fi) {
                lemma_limit(b, h, y.1, y.0, fi, (limit - 1) as nat, more);
            }
        }
    }
}

/// The number of tables that a file is searched for never matters: with a higher one
/// the answer is the same. A chain of more tables than the file has bytes has two of
/// them at one place, and goes round for ever.
pub proof fn law_only_circles_are_refused(
    b: Seq<u8>,
    h: Sizes,
    pos: int,
    c: Cursor,
    fi: int,
    more: nat,
)
    ensures
        tables(b, h, pos, c, fi, b.len() + 1 + more) == tables(b, h, pos, c, fi, b.len() + 1),
{
    let m = b.len() + 1;
    lemma_limit(b, h, pos, c, fi, m, more);
    if hops(b, h, pos, m) is Some {
        lemma_long_chain(b, h, pos, m + more);
        lemma_limit(b, h, pos, c, fi, m + more, 0);
    }
}

} // verus!
