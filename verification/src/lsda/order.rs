//! The order of names, and lists kept in that order.

use vstd::prelude::*;

verus! {

/// `a` comes before `b`: byte by byte, a prefix before what it is a prefix of.
pub open spec fn bytes_lt(a: Seq<u8>, b: Seq<u8>) -> bool
    decreases a.len(),
{
    if b.len() == 0 {
        false
    } else if a.len() == 0 {
        true
    } else if a[0] != b[0] {
        a[0] < b[0]
    } else {
        bytes_lt(a.drop_first(), b.drop_first())
    }
}

/// The names of the entries of a list.
pub open spec fn names<T>(s: Seq<(Vec<u8>, T)>) -> Seq<Seq<u8>> {
    Seq::new(s.len(), |i: int| s[i].0@)
}

/// The names come in order, and none twice.
pub open spec fn sorted(s: Seq<Seq<u8>>) -> bool {
    forall|i: int, j: int| 0 <= i < j < s.len() ==> bytes_lt(#[trigger] s[i], #[trigger] s[j])
}

pub proof fn lemma_bytes_lt_irreflexive(a: Seq<u8>)
    ensures
        !bytes_lt(a, a),
    decreases a.len(),
{
    if a.len() > 0 {
        lemma_bytes_lt_irreflexive(a.drop_first());
    }
}

pub proof fn lemma_bytes_lt_transitive(a: Seq<u8>, b: Seq<u8>, c: Seq<u8>)
    requires
        bytes_lt(a, b),
        bytes_lt(b, c),
    ensures
        bytes_lt(a, c),
    decreases a.len(),
{
    if a.len() > 0 && a[0] == b[0] && b[0] == c[0] {
        lemma_bytes_lt_transitive(a.drop_first(), b.drop_first(), c.drop_first());
    }
}

pub proof fn lemma_bytes_lt_total(a: Seq<u8>, b: Seq<u8>)
    ensures
        bytes_lt(a, b) || a == b || bytes_lt(b, a),
    decreases a.len(),
{
    if a.len() > 0 && b.len() > 0 && a[0] == b[0] {
        lemma_bytes_lt_total(a.drop_first(), b.drop_first());
        if a.drop_first() == b.drop_first() {
            assert(a =~= seq![a[0]] + a.drop_first());
            assert(b =~= seq![b[0]] + b.drop_first());
        }
    } else if a.len() == 0 && b.len() == 0 {
        assert(a =~= b);
    }
}

/// A shared beginning does not matter to the order.
proof fn lemma_bytes_lt_shared(a: Seq<u8>, b: Seq<u8>, n: int)
    requires
        0 <= n <= a.len(),
        n <= b.len(),
        forall|i: int| 0 <= i < n ==> a[i] == b[i],
    ensures
        bytes_lt(a, b) == bytes_lt(a.skip(n), b.skip(n)),
    decreases n,
{
    if n == 0 {
        assert(a.skip(0) =~= a);
        assert(b.skip(0) =~= b);
    } else {
        lemma_bytes_lt_shared(a.drop_first(), b.drop_first(), n - 1);
        assert(a.drop_first().skip(n - 1) =~= a.skip(n));
        assert(b.drop_first().skip(n - 1) =~= b.skip(n));
    }
}

/// In a list in order, a name has one place.
pub proof fn lemma_one_place(s: Seq<Seq<u8>>, i: int, j: int)
    requires
        sorted(s),
        0 <= i < s.len(),
        0 <= j < s.len(),
        s[i] == s[j],
    ensures
        i == j,
{
    lemma_bytes_lt_irreflexive(s[i]);
}

/// Two lists in order with the same names are the same.
pub proof fn law_sorted_unique(a: Seq<Seq<u8>>, b: Seq<Seq<u8>>)
    requires
        sorted(a),
        sorted(b),
        forall|x: Seq<u8>| a.contains(x) <==> b.contains(x),
    ensures
        a == b,
    decreases a.len(),
{
    if a.len() == 0 {
        if b.len() > 0 {
            assert(b.contains(b[0]));
        }
        assert(a =~= b);
    } else {
        assert(a.contains(a.last()));
        assert(b.len() > 0);
        assert(b.contains(b.last()));
        let i = choose|i: int| 0 <= i < b.len() && b[i] == a.last();
        let j = choose|j: int| 0 <= j < a.len() && a[j] == b.last();
        if a.last() != b.last() {
            assert(bytes_lt(b[i], b.last()));
            assert(bytes_lt(a[j], a.last()));
            lemma_bytes_lt_transitive(a.last(), b.last(), a.last());
            lemma_bytes_lt_irreflexive(a.last());
        }
        let x = a.drop_last();
        let y = b.drop_last();
        assert forall|z: Seq<u8>| x.contains(z) <==> y.contains(z) by {
            if x.contains(z) {
                let k = choose|k: int| 0 <= k < x.len() && x[k] == z;
                assert(a[k] == z);
                assert(a.contains(z));
                assert(b.contains(z));
                let m = choose|m: int| 0 <= m < b.len() && b[m] == z;
                if m == b.len() - 1 {
                    lemma_one_place(a, k, a.len() - 1);
                }
                assert(y[m] == z);
            }
            if y.contains(z) {
                let k = choose|k: int| 0 <= k < y.len() && y[k] == z;
                assert(b[k] == z);
                assert(b.contains(z));
                assert(a.contains(z));
                let m = choose|m: int| 0 <= m < a.len() && a[m] == z;
                if m == a.len() - 1 {
                    lemma_one_place(b, k, b.len() - 1);
                }
                assert(x[m] == z);
            }
        }
        law_sorted_unique(x, y);
        assert(a =~= x.push(a.last()));
        assert(b =~= y.push(b.last()));
    }
}

/// `a` comes before `b`.
pub fn less_bytes(a: &[u8], b: &[u8]) -> (r: bool)
    ensures
        r == bytes_lt(a@, b@),
{
    let mut i: usize = 0;
    while i < a.len() && i < b.len() && a[i] == b[i]
        invariant
            i <= a@.len(),
            i <= b@.len(),
            forall|k: int| 0 <= k < i ==> a@[k] == b@[k],
        decreases a@.len() - i,
    {
        i = i + 1;
    }
    proof {
        lemma_bytes_lt_shared(a@, b@, i as int);
        if i < a@.len() && i < b@.len() {
            assert(a@.skip(i as int)[0] == a@[i as int]);
            assert(b@.skip(i as int)[0] == b@[i as int]);
        }
    }
    if i == b.len() {
        false
    } else if i == a.len() {
        true
    } else {
        a[i] < b[i]
    }
}

/// Looks a name up in a list in order: its place, or the place where it belongs.
pub fn search<T>(items: &Vec<(Vec<u8>, T)>, name: &[u8]) -> (r: Result<usize, usize>)
    requires
        sorted(names(items@)),
    ensures
        match r {
            Ok(i) => i < items@.len() && items@[i as int].0@ == name@,
            Err(i) => {
                &&& i <= items@.len()
                &&& forall|k: int| 0 <= k < i ==> bytes_lt(#[trigger] names(items@)[k], name@)
                &&& forall|k: int|
                    i <= k < items@.len() ==> bytes_lt(name@, #[trigger] names(items@)[k])
            },
        },
        r is Ok <==> names(items@).contains(name@),
{
    let mut lo: usize = 0;
    let mut hi: usize = items.len();
    let ghost ns = names(items@);
    while lo < hi
        invariant
            lo <= hi <= items@.len(),
            ns == names(items@),
            sorted(ns),
            forall|k: int| 0 <= k < lo ==> bytes_lt(#[trigger] ns[k], name@),
            forall|k: int| hi <= k < ns.len() ==> bytes_lt(name@, #[trigger] ns[k]),
        decreases hi - lo,
    {
        let mid: usize = lo + (hi - lo) / 2;
        let at: &[u8] = items[mid].0.as_slice();
        assert(ns[mid as int] == at@);
        if less_bytes(at, name) {
            assert forall|k: int| 0 <= k < mid + 1 implies bytes_lt(#[trigger] ns[k], name@) by {
                if k < mid {
                    lemma_bytes_lt_transitive(ns[k], ns[mid as int], name@);
                }
            }
            lo = mid + 1;
        } else if less_bytes(name, at) {
            assert forall|k: int| mid <= k < ns.len() implies bytes_lt(
                name@,
                #[trigger] ns[k],
            ) by {
                if k > mid {
                    lemma_bytes_lt_transitive(name@, ns[mid as int], ns[k]);
                }
            }
            hi = mid;
        } else {
            proof {
                lemma_bytes_lt_total(at@, name@);
                assert(ns[mid as int] == name@);
            }
            return Ok(mid);
        }
    }
    proof {
        if ns.contains(name@) {
            let k = choose|k: int| 0 <= k < ns.len() && ns[k] == name@;
            lemma_bytes_lt_irreflexive(name@);
            if k < lo {
                assert(bytes_lt(ns[k], name@));
            } else {
                assert(bytes_lt(name@, ns[k]));
            }
        }
    }
    Err(lo)
}

/// Putting a name where it belongs keeps the order.
pub proof fn lemma_insert_sorted(s: Seq<Seq<u8>>, i: int, name: Seq<u8>)
    requires
        sorted(s),
        0 <= i <= s.len(),
        forall|k: int| 0 <= k < i ==> bytes_lt(#[trigger] s[k], name),
        forall|k: int| i <= k < s.len() ==> bytes_lt(name, #[trigger] s[k]),
    ensures
        sorted(s.insert(i, name)),
{
    let t = s.insert(i, name);
    assert forall|a: int, b: int| 0 <= a < b < t.len() implies bytes_lt(
        #[trigger] t[a],
        #[trigger] t[b],
    ) by {
        if b == i {
            assert(t[a] == s[a]);
        } else if a == i {
            assert(t[b] == s[b - 1]);
        } else {
            let x = if a < i {
                a
            } else {
                a - 1
            };
            let y = if b < i {
                b
            } else {
                b - 1
            };
            assert(t[a] == s[x] && t[b] == s[y]);
        }
    }
}

/// Taking a name out keeps the order.
pub proof fn lemma_remove_sorted(s: Seq<Seq<u8>>, i: int)
    requires
        sorted(s),
        0 <= i < s.len(),
    ensures
        sorted(s.remove(i)),
{
    let t = s.remove(i);
    assert forall|a: int, b: int| 0 <= a < b < t.len() implies bytes_lt(
        #[trigger] t[a],
        #[trigger] t[b],
    ) by {
        let x = if a < i {
            a
        } else {
            a + 1
        };
        let y = if b < i {
            b
        } else {
            b + 1
        };
        assert(t[a] == s[x] && t[b] == s[y]);
    }
}

} // verus!
