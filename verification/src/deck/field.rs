//! One field of a card.

use crate::text::{decode_lossy, text_of, trim_text, trimmed};
use vstd::prelude::*;
use vstd::slice::slice_subrange;

verus! {

/// The bytes of a field, as they stand in the card.
pub struct Field<'a> {
    pub raw: &'a [u8],
}

pub open spec fn is_blank(c: u8) -> bool {
    c == 32 || c == 9 || c == 10 || c == 13
}

/// `s` without blanks at its ends.
pub open spec fn unpadded(s: Seq<u8>) -> Seq<u8>
    decreases s.len(),
{
    if s.len() > 0 && is_blank(s[0]) {
        unpadded(s.drop_first())
    } else if s.len() > 0 && is_blank(s.last()) {
        unpadded(s.drop_last())
    } else {
        s
    }
}

pub open spec fn all_digits(s: Seq<u8>) -> bool {
    forall|i: int| 0 <= i < s.len() ==> 48 <= #[trigger] s[i] <= 57
}

/// The number that decimal digits stand for.
pub open spec fn digits_value(s: Seq<u8>) -> nat
    decreases s.len(),
{
    if s.len() == 0 {
        0
    } else {
        10 * digits_value(s.drop_last()) + (s.last() - 48) as nat
    }
}

/// The integer in a field: digits, with or without a sign in front, and blanks
/// around; `None` for anything else, and for what no 64-bit integer holds.
pub open spec fn int_in_field(raw: Seq<u8>) -> Option<i64> {
    let s = unpadded(raw);
    let signed = s.len() > 0 && (s[0] == 43 || s[0] == 45);
    let digits = if signed {
        s.drop_first()
    } else {
        s
    };
    let v = if signed && s[0] == 45 {
        -(digits_value(digits) as int)
    } else {
        digits_value(digits) as int
    };
    if digits.len() == 0 || !all_digits(digits) || v < i64::MIN || v > i64::MAX {
        None
    } else {
        Some(v as i64)
    }
}

/// The text of a field, without white space at its ends.
pub open spec fn text_in_field(raw: Seq<u8>) -> Seq<char> {
    trimmed(text_of(raw))
}

fn unpad(s: &[u8]) -> (r: &[u8])
    ensures
        r@ == unpadded(s@),
{
    let n: usize = s.len();
    let mut a: usize = 0;
    let mut b: usize = n;
    assert(s@.subrange(0, n as int) =~= s@);
    while a < b && (s[a] == 32 || s[a] == 9 || s[a] == 10 || s[a] == 13)
        invariant
            a <= b,
            b == n,
            n == s@.len(),
            unpadded(s@.subrange(a as int, b as int)) == unpadded(s@),
        decreases b - a,
    {
        assert(s@.subrange(a as int, b as int).drop_first() =~= s@.subrange(a + 1, b as int));
        a = a + 1;
    }
    while a < b && (s[b - 1] == 32 || s[b - 1] == 9 || s[b - 1] == 10 || s[b - 1] == 13)
        invariant
            a <= b <= n,
            n == s@.len(),
            a < b ==> !is_blank(s@[a as int]),
            unpadded(s@.subrange(a as int, b as int)) == unpadded(s@),
        decreases b - a,
    {
        assert(s@.subrange(a as int, b as int).drop_last() =~= s@.subrange(a as int, b - 1));
        b = b - 1;
    }
    slice_subrange(s, a, b)
}

proof fn lemma_digits_grow(s: Seq<u8>, k: int)
    requires
        0 <= k <= s.len(),
        all_digits(s),
    ensures
        digits_value(s.take(k)) <= digits_value(s),
    decreases s.len(),
{
    if k == s.len() {
        assert(s.take(k) =~= s);
    } else {
        let t = s.drop_last();
        assert(all_digits(t)) by {
            assert forall|i: int| 0 <= i < t.len() implies 48 <= #[trigger] t[i] <= 57 by {
                assert(t[i] == s[i]);
            }
        }
        lemma_digits_grow(t, k);
        assert(t.take(k) =~= s.take(k));
    }
}

/// The value of digits, or `None` for no digits, other bytes, or more than `limit`.
pub(crate) fn read_digits(s: &[u8], limit: u64) -> (r: Option<u64>)
    ensures
        r is Some <==> s@.len() > 0 && all_digits(s@) && digits_value(s@) <= limit,
        r matches Some(v) ==> v == digits_value(s@),
{
    if s.len() == 0 {
        return None;
    }
    let mut v: u128 = 0;
    assert(s@.take(0) =~= Seq::<u8>::empty());
    for i in 0..s.len()
        invariant
            v <= limit,
            v == digits_value(s@.take(i as int)),
            forall|k: int| 0 <= k < i ==> 48 <= #[trigger] s@[k] <= 57,
    {
        let c: u8 = s[i];
        if c < 48 || c > 57 {
            assert(!(48 <= s@[i as int] <= 57));
            return None;
        }
        assert(s@.take(i + 1).drop_last() =~= s@.take(i as int));
        assert(s@.take(i + 1).last() == c);
        v = 10 * v + (c - 48) as u128;
        if v > limit as u128 {
            proof {
                if all_digits(s@) {
                    lemma_digits_grow(s@, i + 1);
                }
            }
            return None;
        }
    }
    assert(s@.take(s@.len() as int) =~= s@);
    Some(v as u64)
}

impl<'a> Field<'a> {
    /// The integer in the field.
    pub fn as_i64(&self) -> (r: Option<i64>)
        ensures
            r == int_in_field(self.raw@),
    {
        let s: &[u8] = unpad(self.raw);
        let n: usize = s.len();
        if n > 0 && (s[0] == 43 || s[0] == 45) {
            let digits: &[u8] = slice_subrange(s, 1, n);
            assert(digits@ =~= s@.drop_first());
            if s[0] == 45 {
                match read_digits(digits, 0x8000_0000_0000_0000) {
                    Some(v) => Some((-(v as i128)) as i64),
                    None => None,
                }
            } else {
                match read_digits(digits, 0x7FFF_FFFF_FFFF_FFFF) {
                    Some(v) => Some(v as i64),
                    None => None,
                }
            }
        } else {
            match read_digits(s, 0x7FFF_FFFF_FFFF_FFFF) {
                Some(v) => Some(v as i64),
                None => None,
            }
        }
    }

    /// The text of the field.
    pub fn as_str(&self) -> (r: String)
        ensures
            r@ == text_in_field(self.raw@),
    {
        let s: String = decode_lossy(self.raw);
        trim_text(s.as_str())
    }
}

/// The integer in a field, or 0.
pub open spec fn int_or_zero(raw: Seq<u8>) -> i64 {
    match int_in_field(raw) {
        Some(v) => v,
        None => 0,
    }
}

/// The integer in a field, or 0.
pub fn to_int(raw: &[u8]) -> (r: i64)
    ensures
        r == int_or_zero(raw@),
{
    let f = Field { raw };
    match f.as_i64() {
        Some(v) => v,
        None => 0,
    }
}

} // verus!
