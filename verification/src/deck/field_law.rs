//! What the texts of fields stand for.

use crate::deck::field::{
    all_digits, digits_value, int_in_field, int_or_zero, is_blank, text_in_field, unpadded,
};
use crate::text::{dec, dec_int, digit_char, text_of};
use vstd::prelude::*;
use vstd::utf8::{encode_utf8, is_ascii_chars, is_ascii_chars_encode_utf8};

verus! {

/// `n` blanks.
pub open spec fn spaces(n: nat) -> Seq<u8> {
    Seq::new(n, |i: int| 32u8)
}

proof fn lemma_padded(s: Seq<u8>, a: nat, c: nat)
    requires
        s.len() > 0,
        !is_blank(s[0]),
        !is_blank(s.last()),
    ensures
        unpadded(spaces(a) + s + spaces(c)) == s,
    decreases a + c,
{
    let t = spaces(a) + s + spaces(c);
    if a > 0 {
        assert(t[0] == 32);
        assert(t.drop_first() =~= spaces((a - 1) as nat) + s + spaces(c));
        lemma_padded(s, (a - 1) as nat, c);
    } else if c > 0 {
        assert(t[0] == s[0]);
        assert(t.last() == 32);
        assert(t.drop_last() =~= spaces(a) + s + spaces((c - 1) as nat));
        lemma_padded(s, a, (c - 1) as nat);
    } else {
        assert(t =~= s);
    }
}

/// The digits of a number as bytes.
proof fn lemma_dec_bytes(n: nat)
    ensures
        is_ascii_chars(dec(n)),
        encode_utf8(dec(n)).len() == dec(n).len(),
        dec(n).len() > 0,
        all_digits(encode_utf8(dec(n))),
        digits_value(encode_utf8(dec(n))) == n,
    decreases n,
{
    let b = encode_utf8(dec(n));
    if n < 10 {
        assert(dec(n) =~= seq![digit_char(n)]);
        assert(is_ascii_chars(dec(n)));
        is_ascii_chars_encode_utf8(dec(n));
        assert(b.len() == 1);
        assert(b[0] == (48 + n) as u8);
        assert(b.drop_last().len() == 0);
        assert(digits_value(b.drop_last()) == 0);
    } else {
        let m = n / 10;
        lemma_dec_bytes(m);
        let c = digit_char(n % 10);
        let a = encode_utf8(dec(m));
        assert(dec(n) == dec(m).push(c));
        assert(is_ascii_chars(dec(n))) by {
            assert forall|i: int| 0 <= i < dec(n).len() implies 0 <= #[trigger] dec(n)[i] as nat
                && (dec(n)[i] as nat) < 128 by {
                if i < dec(m).len() {
                    assert(dec(n)[i] == dec(m)[i]);
                }
            }
        }
        is_ascii_chars_encode_utf8(dec(n));
        is_ascii_chars_encode_utf8(dec(m));
        assert(b.drop_last() =~= a);
        assert(b.last() == (48 + n % 10) as u8);
        assert forall|i: int| 0 <= i < b.len() implies 48 <= #[trigger] b[i] <= 57 by {
            if i < a.len() {
                assert(b[i] == a[i]);
            }
        }
    }
}

/// A number that was written in decimal, with blanks around it or none, is read as it
/// was.
pub proof fn law_integer_reads_back(v: i64, a: nat, c: nat)
    ensures
        int_in_field(spaces(a) + encode_utf8(dec_int(v as int)) + spaces(c)) == Some(v),
        int_or_zero(spaces(a) + encode_utf8(dec_int(v as int)) + spaces(c)) == v,
{
    let n: nat = if v < 0 {
        (-v) as nat
    } else {
        v as nat
    };
    lemma_dec_bytes(n);
    let d = encode_utf8(dec(n));
    if v < 0 {
        let t = seq!['-'] + dec(n);
        assert(is_ascii_chars(t)) by {
            assert forall|i: int| 0 <= i < t.len() implies 0 <= #[trigger] t[i] as nat && (
            t[i] as nat) < 128 by {
                if i > 0 {
                    assert(t[i] == dec(n)[i - 1]);
                }
            }
        }
        is_ascii_chars_encode_utf8(t);
        is_ascii_chars_encode_utf8(dec(n));
        let b = encode_utf8(t);
        assert(b[0] == 45);
        assert(b.drop_first() =~= d);
        assert(b.last() == d.last());
        assert(48 <= d[d.len() - 1] <= 57);
        lemma_padded(b, a, c);
    } else {
        assert(48 <= d[0] <= 57);
        assert(48 <= d[d.len() - 1] <= 57);
        lemma_padded(d, a, c);
    }
}

/// A plus sign in front of a number, and zeros in front of its digits, change nothing.
pub proof fn law_sign_and_zeros(n: nat, z: nat, a: nat, c: nat)
    requires
        n <= i64::MAX,
    ensures
        int_in_field(
            spaces(a) + seq![43u8] + Seq::new(z, |i: int| 48u8) + encode_utf8(dec(n)) + spaces(c),
        ) == Some(n as i64),
        int_in_field(
            spaces(a) + Seq::new(z, |i: int| 48u8) + encode_utf8(dec(n)) + spaces(c),
        ) == Some(n as i64),
{
    lemma_dec_bytes(n);
    let d = encode_utf8(dec(n));
    let zeros = Seq::new(z, |i: int| 48u8);
    let e = zeros + d;
    lemma_leading_zeros(z, d);
    let s = seq![43u8] + e;
    assert(s.drop_first() =~= e);
    assert(s.last() == d.last());
    assert(e.last() == d.last());
    assert(48 <= d[d.len() - 1] <= 57);
    assert(48 <= e[0] <= 57);
    lemma_padded(s, a, c);
    lemma_padded(e, a, c);
    assert(spaces(a) + seq![43u8] + zeros + d + spaces(c) =~= spaces(a) + s + spaces(c));
    assert(spaces(a) + zeros + d + spaces(c) =~= spaces(a) + e + spaces(c));
}

proof fn lemma_leading_zeros(z: nat, d: Seq<u8>)
    requires
        all_digits(d),
    ensures
        all_digits(Seq::new(z, |i: int| 48u8) + d),
        digits_value(Seq::new(z, |i: int| 48u8) + d) == digits_value(d),
    decreases z + d.len(),
{
    let zeros = Seq::new(z, |i: int| 48u8);
    let e = zeros + d;
    assert forall|i: int| 0 <= i < e.len() implies 48 <= #[trigger] e[i] <= 57 by {
        if i >= z {
            assert(e[i] == d[i - z]);
        }
    }
    if d.len() > 0 {
        let f = d.drop_last();
        assert forall|i: int| 0 <= i < f.len() implies 48 <= #[trigger] f[i] <= 57 by {
            assert(f[i] == d[i]);
        }
        lemma_leading_zeros(z, f);
        assert(e.drop_last() =~= zeros + f);
        assert(e.last() == d.last());
    } else if z > 0 {
        assert(e.drop_last() =~= Seq::new((z - 1) as nat, |i: int| 48u8) + d);
        assert(e.last() == 48);
        lemma_leading_zeros((z - 1) as nat, d);
    }
}

proof fn lemma_unpadded_keeps(s: Seq<u8>, i: int)
    requires
        0 <= i < s.len(),
        !is_blank(s[i]),
    ensures
        unpadded(s).contains(s[i]),
    decreases s.len(),
{
    if is_blank(s[0]) {
        assert(s.drop_first()[i - 1] == s[i]);
        lemma_unpadded_keeps(s.drop_first(), i - 1);
    } else if is_blank(s.last()) {
        assert(s.drop_last()[i] == s[i]);
        lemma_unpadded_keeps(s.drop_last(), i);
    } else {
        assert(s.contains(s[i]));
    }
}

proof fn lemma_unpadded_blank(s: Seq<u8>)
    requires
        forall|i: int| 0 <= i < s.len() ==> is_blank(#[trigger] s[i]),
    ensures
        unpadded(s).len() == 0,
    decreases s.len(),
{
    if s.len() > 0 {
        let t = s.drop_first();
        assert forall|i: int| 0 <= i < t.len() implies is_blank(#[trigger] t[i]) by {
            assert(t[i] == s[i + 1]);
        }
        assert(is_blank(s[0]));
        lemma_unpadded_blank(t);
    }
}

/// A field that holds anything but digits, signs and blanks holds no integer, and
/// neither does one of blanks alone; both read as zero.
pub proof fn law_no_integer(s: Seq<u8>)
    requires
        (exists|i: int|
            0 <= i < s.len() && !(48 <= #[trigger] s[i] <= 57 || s[i] == 43 || s[i] == 45 || s[i]
                == 32 || s[i] == 9 || s[i] == 10 || s[i] == 13)) || forall|i: int|
            0 <= i < s.len() ==> (#[trigger] s[i]) == 32,
    ensures
        int_in_field(s) is None,
        int_or_zero(s) == 0,
{
    if forall|i: int| 0 <= i < s.len() ==> (#[trigger] s[i]) == 32 {
        assert forall|i: int| 0 <= i < s.len() implies is_blank(#[trigger] s[i]) by {
            assert(s[i] == 32);
        }
        lemma_unpadded_blank(s);
    } else {
        let i = choose|i: int|
            0 <= i < s.len() && !(48 <= #[trigger] s[i] <= 57 || s[i] == 43 || s[i] == 45 || s[i]
                == 32 || s[i] == 9 || s[i] == 10 || s[i] == 13);
        lemma_unpadded_keeps(s, i);
        let u = unpadded(s);
        let k = u.index_of(s[i]);
        assert(u[k] == s[i]);
        let d = u.drop_first();
        if k > 0 {
            assert(d[k - 1] == s[i]);
            assert(!all_digits(d));
        }
        assert(!all_digits(u));
    }
}

/// The text of a field is what it encodes, from its first character that is no blank to
/// its last; a field of blanks has none.
pub proof fn law_text_reads_back(t: Seq<char>, a: nat, c: nat)
    requires
        is_ascii_chars(t),
        t.len() == 0 || (t[0] != ' ' && t.last() != ' ' && 33 <= t[0] as u32 && 33
            <= t.last() as u32),
    ensures
        text_in_field(spaces(a) + encode_utf8(t) + spaces(c)) == t,
{
    let blanks = |n: nat| Seq::new(n, |i: int| ' ');
    let all = blanks(a) + t + blanks(c);
    assert(is_ascii_chars(all)) by {
        assert forall|i: int| 0 <= i < all.len() implies 0 <= #[trigger] all[i] as nat && (
        all[i] as nat) < 128 by {
            if a <= i < a + t.len() {
                assert(all[i] == t[i - a]);
            }
        }
    }
    is_ascii_chars_encode_utf8(all);
    is_ascii_chars_encode_utf8(t);
    let b = spaces(a) + encode_utf8(t) + spaces(c);
    assert(encode_utf8(all) =~= b);
    vstd::utf8::encode_utf8_valid_utf8(all);
    vstd::utf8::encode_utf8_decode_utf8(all);
    assert(text_of(b) == all);
    lemma_trim(t, a, c);
}

proof fn lemma_trim(t: Seq<char>, a: nat, c: nat)
    requires
        t.len() == 0 || (33 <= t[0] as u32 && 33 <= t.last() as u32 && (t[0] as u32) < 128
            && (t.last() as u32) < 128),
    ensures
        crate::text::trimmed(Seq::new(a, |i: int| ' ') + t + Seq::new(c, |i: int| ' ')) == t,
    decreases a + c,
{
    let s = Seq::new(a, |i: int| ' ') + t + Seq::new(c, |i: int| ' ');
    if a > 0 {
        assert(s[0] == ' ');
        assert(s.drop_first() =~= Seq::new((a - 1) as nat, |i: int| ' ') + t + Seq::new(
            c,
            |i: int| ' ',
        ));
        lemma_trim(t, (a - 1) as nat, c);
    } else if c > 0 {
        let u = Seq::new(a, |i: int| ' ') + t + Seq::new((c - 1) as nat, |i: int| ' ');
        if t.len() == 0 {
            assert(s[0] == ' ');
            assert(s.drop_first() =~= u);
        } else {
            assert(s[0] == t[0]);
            assert(s.last() == ' ');
            assert(s.drop_last() =~= u);
        }
        lemma_trim(t, a, (c - 1) as nat);
    } else {
        assert(s =~= t);
    }
}

} // verus!
