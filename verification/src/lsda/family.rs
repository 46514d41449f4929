//! The names of the files of a family.

use crate::lsda::order::{lemma_insert_sorted, names, search, sorted};
use crate::lsda::symbol::texts;
use crate::text::{dec, push_dec};
use vstd::prelude::*;
use vstd::slice::slice_to_vec;

verus! {

/// `i` with zeros in front up to three digits.
pub open spec fn three_digits(i: nat) -> Seq<char> {
    if i < 10 {
        "00"@ + dec(i)
    } else if i < 100 {
        "0"@ + dec(i)
    } else {
        dec(i)
    }
}

/// The name of continuation file `i` of a file.
pub fn continuation_name(file: &str, i: u32) -> (r: String)
    ensures
        r@ == file@ + "%"@ + three_digits(i as nat),
{
    let mut s: String = String::from_str(file);
    s.append("%");
    if i < 10 {
        s.append("00");
    } else if i < 100 {
        s.append("0");
    }
    push_dec(&mut s, i as u64);
    assert(s@ =~= file@ + "%"@ + three_digits(i as nat));
    s
}

/// The most continuation files of a file.
pub const MAX_CONTINUATION: u32 = 999;

/// The next file to look for, where `found` says that the file before it was there:
/// continuation file `i`, of which there are 999 at most. The first file is always
/// there; the first one that is missing ends the family.
pub fn next_continuation(file: &str, i: u32, found: bool) -> (r: Option<String>)
    ensures
        r is Some <==> found && i <= MAX_CONTINUATION,
        r matches Some(name) ==> name@ == file@ + "%"@ + three_digits(i as nat),
{
    if found && i <= MAX_CONTINUATION {
        Some(continuation_name(file, i))
    } else {
        None
    }
}

/// The bytes of texts.
pub open spec fn text_bytes(s: Seq<Seq<char>>) -> Seq<Seq<u8>> {
    Seq::new(s.len(), |i: int| vstd::utf8::encode_utf8(s[i]))
}

/// The list holds the bytes of its texts.
pub open spec fn keyed(s: Seq<(Vec<u8>, String)>) -> bool {
    forall|i: int|
        0 <= i < s.len() ==> (#[trigger] s[i]).0@ == vstd::utf8::encode_utf8(s[i].1@)
}

/// The text of each entry.
pub open spec fn entry_texts(s: Seq<(Vec<u8>, String)>) -> Seq<Seq<char>> {
    Seq::new(s.len(), |i: int| s[i].1@)
}

proof fn lemma_same_key(s: Seq<(Vec<u8>, String)>, t: Seq<char>)
    requires
        keyed(s),
    ensures
        entry_texts(s).contains(t) <==> names(s).contains(vstd::utf8::encode_utf8(t)),
{
    if entry_texts(s).contains(t) {
        let i = entry_texts(s).index_of(t);
        assert(s[i].1@ == t);
        assert(names(s)[i] == vstd::utf8::encode_utf8(t));
    }
    if names(s).contains(vstd::utf8::encode_utf8(t)) {
        let i = names(s).index_of(vstd::utf8::encode_utf8(t));
        assert(names(s)[i] == s[i].0@);
        vstd::utf8::encode_utf8_decode_utf8(t);
        vstd::utf8::encode_utf8_decode_utf8(s[i].1@);
        assert(entry_texts(s)[i] == t);
    }
}

/// The files of a family in the order in which their numbers count: by name, none
/// twice.
pub fn family_order(files: &Vec<String>) -> (r: Vec<String>)
    ensures
        sorted(text_bytes(texts(r@))),
        forall|t: Seq<char>| #[trigger] texts(r@).contains(t) <==> texts(files@).contains(t),
{
    let mut list: Vec<(Vec<u8>, String)> = Vec::new();
    for i in 0..files.len()
        invariant
            sorted(names(list@)),
            keyed(list@),
            forall|t: Seq<char>| #[trigger]
                entry_texts(list@).contains(t) <==> texts(files@).take(i as int).contains(t),
    {
        let key: &[u8] = files[i].as_str().as_bytes();
        let ghost before = list@;
        let ghost x = files@[i as int]@;
        proof {
            lemma_same_key(before, x);
        }
        match search(&list, key) {
            Ok(_) => {},
            Err(at) => {
                list.insert(at, (slice_to_vec(key), String::from_str(files[i].as_str())));
                proof {
                    assert(names(list@) =~= names(before).insert(at as int, key@));
                    lemma_insert_sorted(names(before), at as int, key@);
                    assert(entry_texts(list@) =~= entry_texts(before).insert(at as int, x));
                }
            },
        }
        proof {
            let all = texts(files@);
            assert(all.take(i + 1) =~= all.take(i as int).push(x));
            assert forall|t: Seq<char>| #[trigger]
                entry_texts(list@).contains(t) <==> all.take(i + 1).contains(t) by {
                let a = all.take(i as int);
                assert(entry_texts(before).contains(t) <==> a.contains(t));
                if a.contains(t) {
                    let k = a.index_of(t);
                    assert(a.push(x)[k] == t);
                }
                if a.push(x).contains(t) && !a.contains(t) {
                    let k = a.push(x).index_of(t);
                    if k < a.len() {
                        assert(a[k] == t);
                    }
                    assert(t == x);
                }
                assert(a.push(x)[a.len() as int] == x);
                lemma_contains_insert(entry_texts(before), entry_texts(list@), x, t);
            }
        }
    }
    assert(texts(files@).take(files@.len() as int) =~= texts(files@));
    let mut out: Vec<String> = Vec::new();
    for i in 0..list.len()
        invariant
            out@.len() == i,
            forall|k: int| 0 <= k < i ==> (#[trigger] out@[k])@ == list@[k].1@,
    {
        out.push(String::from_str(list[i].1.as_str()));
    }
    assert(texts(out@) =~= entry_texts(list@));
    assert(text_bytes(texts(out@)) =~= names(list@));
    out
}

/// Either nothing changed, or `x` was put somewhere.
proof fn lemma_contains_insert(a: Seq<Seq<char>>, b: Seq<Seq<char>>, x: Seq<char>, t: Seq<char>)
    requires
        (a == b && a.contains(x)) || exists|i: int| 0 <= i <= a.len() && b == #[trigger] a.insert(
            i,
            x,
        ),
    ensures
        b.contains(t) <==> a.contains(t) || t == x,
{
    if a == b && a.contains(x) {
    } else {
        let i = choose|i: int| 0 <= i <= a.len() && b == #[trigger] a.insert(i, x);
        if a.contains(t) {
            let k = a.index_of(t);
            if k < i {
                assert(b[k] == t);
            } else {
                assert(b[k + 1] == t);
            }
        }
        assert(b[i] == x);
        if b.contains(t) {
            let k = b.index_of(t);
            if k < i {
                assert(a[k] == t);
            } else if k > i {
                assert(a[k - 1] == t);
            }
        }
    }
}

/// The number of a continuation has three digits, zeros in front of it where it is shorter,
/// up to 999; a longer number stands as it is.
pub proof fn law_three_digits(i: nat)
    ensures
        i < 1000 ==> three_digits(i).len() == 3,
        three_digits(i).len() >= dec(i).len(),
        three_digits(i).skip(three_digits(i).len() - dec(i).len()) == dec(i),
        forall|k: int|
            0 <= k < three_digits(i).len() - dec(i).len() ==> #[trigger] three_digits(i)[k] == '0',
{
    reveal_with_fuel(dec, 4);
    reveal_strlit("00");
    reveal_strlit("0");
    let t = three_digits(i);
    assert(t.skip(t.len() - dec(i).len()) =~= dec(i));
}

} // verus!
