//! The names of the files of a family.

use crate::deck::field::{all_digits, digits_value, read_digits};
use crate::lsda::paths::lemma_encode_concat;
use crate::text::{dec, digit_char, push_dec};
use vstd::prelude::*;
use vstd::slice::slice_subrange;

verus! {

/// `i` in at least two digits.
pub open spec fn two_digits(i: nat) -> Seq<char> {
    if i < 10 {
        "0"@ + dec(i)
    } else {
        dec(i)
    }
}

/// The name of member `i` of a family: the base itself, then the base with a number.
pub open spec fn member_name(stem: Seq<char>, i: nat) -> Seq<char> {
    if i == 0 {
        stem
    } else {
        stem + two_digits(i)
    }
}

/// The names for a family of `k` files; at least the base.
pub fn member_names(stem: &str, k: usize) -> (r: Vec<String>)
    ensures
        r@.len() == if k == 0 {
            1
        } else {
            k as nat
        },
        forall|i: int| 0 <= i < r@.len() ==> (#[trigger] r@[i])@ == member_name(stem@, i as nat),
{
    let mut out: Vec<String> = Vec::new();
    out.push(String::from_str(stem));
    let mut i: usize = 1;
    while i < k
        invariant
            1 <= i,
            i <= k || k == 0 && i == 1,
            out@.len() == i,
            forall|j: int|
                0 <= j < i ==> (#[trigger] out@[j])@ == member_name(stem@, j as nat),
        decreases k - i,
    {
        let mut s: String = String::from_str(stem);
        if i < 10 {
            s.append("0");
        }
        push_dec(&mut s, i as u64);
        assert(s@ =~= member_name(stem@, i as nat));
        out.push(s);
        i = i + 1;
    }
    out
}

/// The number behind the base in the name of a file, if there is just a number.
pub open spec fn number_of(base: Seq<u8>, name: Seq<u8>) -> Option<u64> {
    let n = base.len() as int;
    if name.len() > n && name.take(n) == base && all_digits(name.skip(n)) && digits_value(
        name.skip(n),
    ) <= u64::MAX {
        Some(digits_value(name.skip(n)) as u64)
    } else {
        None
    }
}

/// The number behind the base in the name of a file.
pub fn member_number(base: &str, name: &str) -> (r: Option<u64>)
    ensures
        r == number_of(vstd::utf8::encode_utf8(base@), vstd::utf8::encode_utf8(name@)),
{
    let b: &[u8] = base.as_bytes();
    let s: &[u8] = name.as_bytes();
    let n: usize = b.len();
    if s.len() <= n {
        return None;
    }
    let head: &[u8] = slice_subrange(s, 0, n);
    assert(head@ =~= s@.take(n as int));
    if !crate::text::same_bytes(head, b) {
        return None;
    }
    let rest: &[u8] = slice_subrange(s, n, s.len());
    assert(rest@ =~= s@.skip(n as int));
    read_digits(rest, u64::MAX)
}

/// A number and a path.
pub type Numbered = (u64, Seq<char>);

/// The paths with a number, in order.
pub open spec fn with_number(s: Seq<Numbered>, n: u64) -> Seq<Seq<char>>
    decreases s.len(),
{
    if s.len() == 0 {
        Seq::empty()
    } else if s.last().0 == n {
        with_number(s.drop_last(), n).push(s.last().1)
    } else {
        with_number(s.drop_last(), n)
    }
}

/// The numbers do not fall.
pub open spec fn by_number(s: Seq<Numbered>) -> bool {
    forall|i: int, j: int| 0 <= i < j < s.len() ==> s[i].0 <= s[j].0
}

/// `a` holds the entries of `b` in the order of their numbers, those with equal numbers
/// in the order of `b`.
pub open spec fn sorted_from(a: Seq<Numbered>, b: Seq<Numbered>) -> bool {
    by_number(a) && forall|n: u64| #[trigger] with_number(a, n) == with_number(b, n)
}

/// The members among the entries of a directory, by name and path.
pub open spec fn members(base: Seq<char>, entries: Seq<(String, String)>) -> Seq<Numbered>
    decreases entries.len(),
{
    if entries.len() == 0 {
        Seq::empty()
    } else {
        let rest = members(base, entries.drop_last());
        match number_of(
            vstd::utf8::encode_utf8(base),
            vstd::utf8::encode_utf8(entries.last().0@),
        ) {
            Some(n) => rest.push((n, entries.last().1@)),
            None => rest,
        }
    }
}

pub open spec fn numbered(s: Seq<(u64, String)>) -> Seq<Numbered> {
    Seq::new(s.len(), |i: int| (s[i].0, s[i].1@))
}

proof fn lemma_insert(s: Seq<Numbered>, p: int, x: Numbered, n: u64)
    requires
        0 <= p <= s.len(),
        forall|i: int| p <= i < s.len() ==> (#[trigger] s[i]).0 > x.0,
    ensures
        with_number(s.insert(p, x), n) == with_number(s.push(x), n),
    decreases s.len(),
{
    if p == s.len() {
        assert(s.insert(p, x) =~= s.push(x));
    } else {
        let t = s.drop_last();
        let y = s.last();
        lemma_insert(t, p, x, n);
        assert(s.insert(p, x).drop_last() =~= t.insert(p, x));
        assert(s.insert(p, x).last() == y);
        assert(s.push(x).drop_last() =~= s);
        assert(t.push(x).drop_last() =~= t);
        assert(y.0 > x.0);
        reveal_with_fuel(with_number, 3);
    }
}

/// Two lists with the same entries by number have them with one more.
proof fn lemma_push_same(a: Seq<Numbered>, b: Seq<Numbered>, x: Numbered, n: u64)
    requires
        with_number(a, n) == with_number(b, n),
    ensures
        with_number(a.push(x), n) == with_number(b.push(x), n),
{
    assert(a.push(x).drop_last() =~= a);
    assert(b.push(x).drop_last() =~= b);
}

/// The files of a family: the base, then the members in a directory by their number,
/// so that a gap between numbers ends nothing. `entries` are the names and paths of the
/// files there.
pub fn family_paths(base: &str, base_name: &str, entries: &Vec<(String, String)>) -> (r: Vec<
    String,
>)
    ensures
        r@.len() >= 1,
        r@[0]@ == base@,
        exists|l: Seq<Numbered>| #[trigger]
            sorted_from(l, members(base_name@, entries@)) && r@.len() == l.len() + 1 && forall|
                i: int,
            |
                0 <= i < l.len() ==> (#[trigger] r@[i + 1])@ == l[i].1,
{
    let mut list: Vec<(u64, String)> = Vec::new();
    assert(entries@.take(0) =~= Seq::<(String, String)>::empty());
    assert(numbered(list@) =~= Seq::<Numbered>::empty());
    for i in 0..entries.len()
        invariant
            sorted_from(numbered(list@), members(base_name@, entries@.take(i as int))),
    {
        let ghost m0 = members(base_name@, entries@.take(i as int));
        assert(entries@.take(i + 1).drop_last() =~= entries@.take(i as int));
        match member_number(base_name, entries[i].0.as_str()) {
            Some(n) => {
                let ghost l0 = numbered(list@);
                let mut p: usize = list.len();
                while p > 0 && list[p - 1].0 > n
                    invariant
                        p <= list@.len(),
                        forall|k: int| p <= k < list@.len() ==> (#[trigger] list@[k]).0 > n,
                    decreases p,
                {
                    p = p - 1;
                }
                let path: String = String::from_str(entries[i].1.as_str());
                let ghost x: Numbered = (n, path@);
                list.insert(p, (n, path));
                proof {
                    let l1 = numbered(list@);
                    assert(l1 =~= l0.insert(p as int, x));
                    let m1 = members(base_name@, entries@.take(i + 1));
                    assert(m1 == m0.push(x));
                    assert forall|k: int| p <= k < l0.len() implies (#[trigger] l0[k]).0 > x.0 by {}
                    assert(p > 0 ==> l0[p - 1].0 <= n);
                    assert forall|a: int, b: int| 0 <= a < b < l1.len() implies l1[a].0
                        <= l1[b].0 by {
                        let c = if a < p { a } else { a - 1 };
                        let d = if b < p { b } else { b - 1 };
                        if a < p && b == p {
                            if a < p - 1 {
                                assert(l0[a].0 <= l0[p - 1].0);
                            }
                        } else if a == p {
                            assert(l0[b - 1].0 > x.0);
                        } else {
                            assert(l0[c].0 <= l0[d].0);
                        }
                    }
                    assert forall|k: u64| #[trigger] with_number(l1, k) == with_number(m1, k) by {
                        lemma_insert(l0, p as int, x, k);
                        assert(with_number(l0, k) == with_number(m0, k));
                        lemma_push_same(l0, m0, x, k);
                    }
                }
            },
            None => {},
        }
    }
    assert(entries@.take(entries@.len() as int) =~= entries@);
    let ghost l = numbered(list@);
    let mut out: Vec<String> = Vec::new();
    out.push(String::from_str(base));
    for i in 0..list.len()
        invariant
            l == numbered(list@),
            out@.len() == i + 1,
            out@[0]@ == base@,
            forall|k: int| 0 <= k < i ==> (#[trigger] out@[k + 1])@ == l[k].1,
    {
        out.push(String::from_str(list[i].1.as_str()));
    }
    out
}

proof fn lemma_digit_byte(d: nat)
    requires
        d < 10,
    ensures
        vstd::utf8::encode_utf8(seq![digit_char(d)]) == seq![(48 + d) as u8],
{
    let s = seq![digit_char(d)];
    assert(vstd::utf8::is_ascii_chars(s));
    vstd::utf8::is_ascii_chars_encode_utf8(s);
    assert(s[0] as u8 == vstd::utf8::encode_utf8(s)[0]);
    assert(vstd::utf8::encode_utf8(s) =~= seq![(48 + d) as u8]);
}

proof fn lemma_dec_bytes(i: nat)
    ensures
        vstd::utf8::encode_utf8(dec(i)).len() > 0,
        all_digits(vstd::utf8::encode_utf8(dec(i))),
        digits_value(vstd::utf8::encode_utf8(dec(i))) == i,
    decreases i,
{
    let b = vstd::utf8::encode_utf8(dec(i));
    if i < 10 {
        lemma_digit_byte(i);
        reveal_with_fuel(digits_value, 2);
        assert(b.drop_last() =~= Seq::<u8>::empty());
    } else {
        lemma_dec_bytes(i / 10);
        lemma_digit_byte(i % 10);
        let t = dec(i / 10);
        let d = seq![digit_char(i % 10)];
        assert(dec(i) =~= t + d);
        lemma_encode_concat(t, d);
        assert(b =~= vstd::utf8::encode_utf8(t).push((48 + i % 10) as u8));
        assert(b.drop_last() =~= vstd::utf8::encode_utf8(t));
    }
}

proof fn lemma_leading_zero(s: Seq<u8>)
    ensures
        digits_value(seq![48u8] + s) == digits_value(s),
    decreases s.len(),
{
    let z = seq![48u8] + s;
    if s.len() == 0 {
        reveal_with_fuel(digits_value, 2);
        assert(z.drop_last() =~= Seq::<u8>::empty());
    } else {
        lemma_leading_zero(s.drop_last());
        assert(z.drop_last() =~= seq![48u8] + s.drop_last());
    }
}

/// The reader finds the names that the writer gives: the number behind the base in the
/// name of member `i` is `i`.
pub proof fn law_member_numbers(stem: Seq<char>, i: nat)
    requires
        1 <= i <= u64::MAX,
    ensures
        number_of(
            vstd::utf8::encode_utf8(stem),
            vstd::utf8::encode_utf8(member_name(stem, i)),
        ) == Some(i as u64),
{
    let tail = two_digits(i);
    let t = vstd::utf8::encode_utf8(tail);
    lemma_dec_bytes(i);
    if i < 10 {
        reveal_strlit("0");
        assert("0"@ =~= seq![digit_char(0)]);
        lemma_digit_byte(0);
        lemma_encode_concat("0"@, dec(i));
        lemma_leading_zero(vstd::utf8::encode_utf8(dec(i)));
    }
    let b = vstd::utf8::encode_utf8(stem);
    lemma_encode_concat(stem, tail);
    let name = vstd::utf8::encode_utf8(stem + tail);
    assert(name == b + t);
    assert(name.take(b.len() as int) =~= b);
    assert(name.skip(b.len() as int) =~= t);
}

} // verus!
