//! State directories, and the matrices that are gathered from them.

use crate::ieee::{double_of_int, int_of_double, law_small_int_is_exact};
use crate::lsda::binout::{
    byte_of_double, bytes_of, first_place, is_state_name, law_row_is_state, share, state_names,
    Binout, StateMatrix, TimeSeries,
};
use crate::lsda::symbol::ReadView;
use crate::lsda::LsdaFault;
use crate::text::{dec, text_of, trimmed};
use vstd::prelude::*;
use vstd::utf8::{encode_utf8, is_ascii_chars, is_ascii_chars_encode_utf8};

verus! {

/// `d` and the digits of a number, with `z` zeros in front of them.
pub open spec fn state_text(n: nat, z: nat) -> Seq<char> {
    seq!['d'] + Seq::new(z, |i: int| '0') + dec(n)
}

/// All are the digits 0 to 9.
pub open spec fn are_digits(s: Seq<char>) -> bool {
    forall|i: int| 0 <= i < s.len() ==> '0' <= (#[trigger] s[i]) && s[i] <= '9'
}

proof fn lemma_dec_digits(n: nat)
    ensures
        are_digits(dec(n)),
        dec(n).len() > 0,
    decreases n,
{
    if n >= 10 {
        lemma_dec_digits(n / 10);
        let a = dec(n / 10);
        assert forall|i: int| 0 <= i < dec(n).len() implies '0' <= (#[trigger] dec(n)[i])
            && dec(n)[i] <= '9' by {
            if i < a.len() {
                assert(dec(n)[i] == a[i]);
            }
        }
    }
}

/// A name is that of a state directory if and only if it is `d` with digits behind it,
/// and nothing else.
pub proof fn law_state_names(k: Seq<char>)
    ensures
        is_state_name(encode_utf8(k)) <==> k.len() > 1 && k[0] == 'd' && are_digits(k.skip(1)),
{
    let b = encode_utf8(k);
    if k.len() > 1 && k[0] == 'd' && are_digits(k.skip(1)) {
        assert(is_ascii_chars(k)) by {
            assert forall|i: int| 0 <= i < k.len() implies '\0' <= #[trigger] k[i] <= '\u{7f}' by {
                if i > 0 {
                    assert(k[i] == k.skip(1)[i - 1]);
                }
            }
        }
        is_ascii_chars_encode_utf8(k);
        assert forall|i: int| 1 <= i < b.len() implies 48 <= #[trigger] b[i] <= 57 by {
            assert(k[i] == k.skip(1)[i - 1]);
        }
    }
    if is_state_name(b) {
        let c = Seq::new(b.len(), |i: int| b[i] as char);
        assert(is_ascii_chars(c)) by {
            assert forall|i: int| 0 <= i < c.len() implies '\0' <= #[trigger] c[i] <= '\u{7f}' by {
                if i > 0 {
                    assert(48 <= b[i] <= 57);
                }
            }
        }
        is_ascii_chars_encode_utf8(c);
        assert(encode_utf8(c) =~= b);
        vstd::utf8::encode_utf8_decode_utf8(c);
        vstd::utf8::encode_utf8_decode_utf8(k);
        assert(c == k);
        assert forall|i: int| 0 <= i < k.skip(1).len() implies '0' <= (#[trigger] k.skip(1)[i])
            && k.skip(1)[i] <= '9' by {
            assert(48 <= b[i + 1] <= 57);
        }
    }
}

/// Every number has a state directory, with zeros in front of it or none.
pub proof fn law_numbered_states(n: nat, z: nat)
    ensures
        is_state_name(encode_utf8(state_text(n, z))),
{
    let k = state_text(n, z);
    lemma_dec_digits(n);
    let t = k.skip(1);
    assert forall|i: int| 0 <= i < t.len() implies '0' <= (#[trigger] t[i]) && t[i] <= '9' by {
        if i >= z {
            assert(t[i] == dec(n)[i - z]);
        }
    }
    law_state_names(k);
}

proof fn lemma_names_add(a: Seq<Seq<char>>, b: Seq<Seq<char>>)
    ensures
        state_names(a + b) == state_names(a) + state_names(b),
    decreases b.len(),
{
    if b.len() == 0 {
        assert(a + b =~= a);
        assert(state_names(a) + state_names(b) =~= state_names(a));
    } else {
        assert((a + b).drop_last() =~= a + b.drop_last());
        lemma_names_add(a, b.drop_last());
        assert(state_names(a + b) =~= state_names(a) + state_names(b));
    }
}

/// The states of a directory are its names that are `d` and digits, in their order; the
/// other names do not count, wherever they stand.
pub proof fn law_states_in_order(keys: Seq<Seq<char>>)
    ensures
        state_names(keys) == keys.filter(
            |k: Seq<char>| k.len() > 1 && k[0] == 'd' && are_digits(k.skip(1)),
        ),
    decreases keys.len(),
{
    let p = |k: Seq<char>| k.len() > 1 && k[0] == 'd' && are_digits(k.skip(1));
    reveal(Seq::filter);
    if keys.len() > 0 {
        law_states_in_order(keys.drop_last());
        law_state_names(keys.last());
    } else {
        assert(state_names(keys) =~= keys.filter(p));
    }
}

/// The names of states `1 ..= n`, each padded with as many zeros as `pad` says.
pub open spec fn numbered(n: nat, pad: spec_fn(int) -> nat) -> Seq<Seq<char>> {
    Seq::new(n, |i: int| state_text((i + 1) as nat, pad(i)))
}

/// A directory of states `1 ..= n` has these states, one for each, whatever stands in
/// front of them or behind them that is no state, such as `metadata`.
pub proof fn law_numbered_directory(
    front: Seq<Seq<char>>,
    n: nat,
    pad: spec_fn(int) -> nat,
    back: Seq<Seq<char>>,
)
    requires
        forall|i: int|
            0 <= i < front.len() ==> !is_state_name(encode_utf8(#[trigger] front[i])),
        forall|i: int| 0 <= i < back.len() ==> !is_state_name(encode_utf8(#[trigger] back[i])),
    ensures
        state_names(front + numbered(n, pad) + back) == numbered(n, pad),
        !is_state_name(encode_utf8("metadata"@)),
{
    lemma_names_add(front + numbered(n, pad), back);
    lemma_names_add(front, numbered(n, pad));
    lemma_no_states(front);
    lemma_no_states(back);
    lemma_all_states(n, pad);
    assert(state_names(front + numbered(n, pad) + back) =~= numbered(n, pad));
    reveal_strlit("metadata");
    law_state_names("metadata"@);
}

proof fn lemma_no_states(s: Seq<Seq<char>>)
    requires
        forall|i: int| 0 <= i < s.len() ==> !is_state_name(encode_utf8(#[trigger] s[i])),
    ensures
        state_names(s) == Seq::<Seq<char>>::empty(),
    decreases s.len(),
{
    if s.len() > 0 {
        let t = s.drop_last();
        assert forall|i: int| 0 <= i < t.len() implies !is_state_name(
            encode_utf8(#[trigger] t[i]),
        ) by {
            assert(t[i] == s[i]);
        }
        lemma_no_states(t);
        assert(!is_state_name(encode_utf8(s[s.len() - 1])));
    }
}

proof fn lemma_all_states(n: nat, pad: spec_fn(int) -> nat)
    ensures
        state_names(numbered(n, pad)) == numbered(n, pad),
    decreases n,
{
    if n > 0 {
        let m = (n - 1) as nat;
        lemma_all_states(m, pad);
        assert(numbered(n, pad).drop_last() =~= numbered(m, pad));
        assert(numbered(n, pad).last() == state_text(n, pad(n - 1)));
        law_numbered_states(n, pad(n - 1));
        assert(numbered(m, pad).push(numbered(n, pad).last()) =~= numbered(n, pad));
    } else {
        assert(numbered(n, pad) =~= Seq::empty());
    }
}

/// A matrix has one row for each state directory of its branch, in the order of their
/// names, and row `i` holds what the variable holds in state `i`. Its times are the first
/// values of `time` in the states, 0 where there is none, and its numbers are the integers
/// at `metadata/ids`.
pub proof fn law_matrix_rows(
    b: Binout,
    branch: Seq<char>,
    var: Seq<char>,
    m: StateMatrix,
    i: int,
)
    requires
        b.is_matrix(branch, var, m),
        ({
            let keys = (b.read_at(seq![branch])->Ok_0).key_texts();
            let s = keys.filter(
                |k: Seq<char>| k.len() > 1 && k[0] == 'd' && are_digits(k.skip(1)),
            );
            &&& 0 <= i < s.len()
            &&& forall|k: int|
                0 <= k < s.len() ==> (b.read_at(
                    seq![branch, #[trigger] s[k], var],
                )->Ok_0).doubles().len() == m.n_channels
        }),
    ensures
        ({
            let keys = (b.read_at(seq![branch])->Ok_0).key_texts();
            let s = keys.filter(
                |k: Seq<char>| k.len() > 1 && k[0] == 'd' && are_digits(k.skip(1)),
            );
            let n = m.n_channels as int;
            let ids = b.read_at(seq![branch, "metadata"@, "ids"@]);
            let when = b.read_at(seq![branch, s[i], "time"@]);
            &&& m.n_steps == s.len()
            &&& m.time@.len() == s.len()
            &&& m.values@.len() == s.len() * n
            &&& m.values@.subrange(i * n, i * n + n) == (b.read_at(
                seq![branch, s[i], var],
            )->Ok_0).doubles()
            &&& when is Ok && (when->Ok_0).doubles().len() > 0 ==> m.time@[i]
                == (when->Ok_0).doubles()[0]
            &&& when is Err || (when->Ok_0).doubles().len() == 0 ==> m.time@[i] == 0
            &&& ids is Err ==> m.ids@.len() == 0
            &&& ids is Ok ==> m.ids@ == Seq::new(
                (ids->Ok_0).doubles().len(),
                |k: int| int_of_double((ids->Ok_0).doubles()[k]) as i64,
            )
        }),
{
    let keys = (b.read_at(seq![branch])->Ok_0).key_texts();
    law_states_in_order(keys);
    let s = b.states_of(branch);
    let n = m.n_channels as int;
    law_row_is_state(b, branch, var, s.len(), m.n_channels as nat, i);
    assert((i + 1) * n == i * n + n) by (nonlinear_arith);
    let ids = b.read_at(seq![branch, "metadata"@, "ids"@]);
    if ids is Ok {
        assert(m.ids@ =~= Seq::new(
            (ids->Ok_0).doubles().len(),
            |k: int| int_of_double((ids->Ok_0).doubles()[k]) as i64,
        ));
    }
}

/// A directory of states `1 ..= n`, with names that are no states around them, gives a
/// matrix of `n` rows, and row `i` is the variable in state `i + 1`.
pub proof fn law_numbered_matrix(
    b: Binout,
    branch: Seq<char>,
    var: Seq<char>,
    m: StateMatrix,
    front: Seq<Seq<char>>,
    n: nat,
    pad: spec_fn(int) -> nat,
    back: Seq<Seq<char>>,
    i: int,
)
    requires
        b.is_matrix(branch, var, m),
        (b.read_at(seq![branch])->Ok_0).key_texts() == front + numbered(n, pad) + back,
        forall|k: int|
            0 <= k < front.len() ==> !is_state_name(encode_utf8(#[trigger] front[k])),
        forall|k: int| 0 <= k < back.len() ==> !is_state_name(encode_utf8(#[trigger] back[k])),
        forall|k: int|
            0 <= k < n ==> (b.read_at(
                seq![branch, #[trigger] numbered(n, pad)[k], var],
            )->Ok_0).doubles().len() == m.n_channels,
        0 <= i < n,
    ensures
        m.n_steps == n,
        m.time@.len() == n,
        m.values@.len() == n * m.n_channels,
        m.values@.subrange(i * m.n_channels, i * m.n_channels + m.n_channels) == (b.read_at(
            seq![branch, state_text((i + 1) as nat, pad(i)), var],
        )->Ok_0).doubles(),
{
    law_numbered_directory(front, n, pad, back);
    let keys = front + numbered(n, pad) + back;
    law_states_in_order(keys);
    let s = keys.filter(|k: Seq<char>| k.len() > 1 && k[0] == 'd' && are_digits(k.skip(1)));
    assert forall|k: int| 0 <= k < s.len() implies (b.read_at(
        seq![branch, #[trigger] s[k], var],
    )->Ok_0).doubles().len() == m.n_channels by {
        assert(s[k] == numbered(n, pad)[k]);
    }
    assert(s[i] == state_text((i + 1) as nat, pad(i)));
    law_matrix_rows(b, branch, var, m, i);
}

/// A row and a column meet in one value.
pub proof fn law_rows_and_columns(m: StateMatrix, i: int, j: int)
    requires
        0 <= i < m.n_steps,
        0 <= j < m.n_channels,
        m.n_steps * m.n_channels <= m.values@.len(),
    ensures
        m.column_of(j).len() == m.n_steps,
        m.has_column(j),
        m.column_of(j)[i] == m.values@.subrange(
            i * m.n_channels,
            (i + 1) * m.n_channels,
        )[j],
{
    let n = m.n_channels as int;
    assert((i + 1) * n == i * n + n && 0 <= i * n && (i + 1) * n <= m.n_steps * n
        && (m.n_steps - 1) * n + n == m.n_steps * n) by (nonlinear_arith)
        requires
            0 <= i < m.n_steps,
            n >= 0,
    ;
}

/// Names that stand in equal shares of a text, one behind the other, are found again,
/// without the blanks around them.
pub proof fn law_shares_are_the_names(names: Seq<Seq<u8>>, w: nat, rest: Seq<u8>, i: int)
    requires
        w > 0,
        forall|k: int| 0 <= k < names.len() ==> (#[trigger] names[k]).len() == w,
        0 <= i < names.len(),
        rest.len() < names.len(),
    ensures
        share(names.flatten() + rest, names.len(), i) == trimmed(text_of(names[i])),
{
    let n = names.len();
    let b = names.flatten() + rest;
    lemma_equal_shares(names, w, i);
    assert(b.len() == n * w + rest.len());
    assert(b.len() / n == w) by (nonlinear_arith)
        requires
            b.len() == n * w + rest.len(),
            rest.len() < n,
            n > 0,
    ;
    assert(0 <= i * w && i * w + w <= n * w) by (nonlinear_arith)
        requires
            0 <= i < n,
    ;
    assert(b.subrange(i * w, i * w + w) =~= names[i]);
}

proof fn lemma_equal_shares(names: Seq<Seq<u8>>, w: nat, i: int)
    requires
        forall|k: int| 0 <= k < names.len() ==> (#[trigger] names[k]).len() == w,
        0 <= i < names.len(),
    ensures
        names.flatten().len() == names.len() * w,
        names.flatten().subrange(i * w, i * w + w) == names[i],
    decreases names.len(),
{
    let t = names.drop_first();
    let n = names.len();
    assert forall|k: int| 0 <= k < t.len() implies (#[trigger] t[k]).len() == w by {
        assert(t[k] == names[k + 1]);
    }
    assert(names[0].len() == w);
    assert(n * w == w + (n - 1) * w) by (nonlinear_arith);
    let f = names.flatten();
    let g = t.flatten();
    assert(f == names[0] + g);
    if n > 1 {
        lemma_equal_shares(t, w, if i > 0 { i - 1 } else { 0 });
    } else {
        assert(t =~= Seq::empty());
        assert(0 * w == 0);
    }
    if i > 0 {
        assert(i * w == w + (i - 1) * w && 0 <= (i - 1) * w && (i - 1) * w + w <= (n - 1) * w)
            by (nonlinear_arith)
            requires
                0 < i < n,
        ;
        assert(f.subrange(i * w, i * w + w) =~= g.subrange((i - 1) * w, (i - 1) * w + w));
        assert(t[i - 1] == names[i]);
    } else {
        assert(0 * w == 0);
        assert(f.subrange(0, w as int) =~= names[0]);
    }
}

/// A time series holds the values at its path, over those of `time` in the directory of
/// the path. Where there is no `time` it counts from 0.
pub proof fn law_time_series(
    b: Binout,
    dir: Seq<Seq<char>>,
    var: Seq<char>,
    s: TimeSeries,
    i: int,
)
    requires
        b.is_time_series(dir + seq![var], s),
    ensures
        ({
            let values = b.read_at(dir + seq![var]);
            let time = b.read_at(dir + seq!["time"@]);
            &&& values matches Ok(v) && s.values@ == v.doubles()
            &&& s.channel@ == var
            &&& time matches Ok(t) ==> s.time@ == t.doubles()
            &&& time is Err ==> s.time@.len() == s.values@.len() && (0 <= i < s.time@.len()
                ==> s.time@[i] == double_of_int(i) as u64)
        }),
{
    let p = dir + seq![var];
    assert(p.drop_last().push("time"@) =~= dir + seq!["time"@]);
    assert(p.last() == var);
}

/// A number is found at the first of the places where it stands, if at any.
pub proof fn law_first_place(s: Seq<i64>, id: i64, j: int)
    requires
        s.len() <= usize::MAX,
    ensures
        first_place(s, id) matches Some(k) ==> k < s.len() && s[k as int] == id && (0 <= j < k
            ==> s[j] != id),
        first_place(s, id) is None ==> (0 <= j < s.len() ==> s[j] != id),
{
    if s.contains(id) {
        s.index_of_first_ensures(id);
    } else if 0 <= j < s.len() {
        assert(s[j] != id);
    }
}

/// Bytes that are read as doubles are the same bytes again.
pub proof fn law_bytes_come_back(b: Seq<u8>)
    ensures
        bytes_of(ReadView::U8(b).doubles()) == b,
{
    let d = ReadView::U8(b).doubles();
    assert forall|i: int| 0 <= i < b.len() implies byte_of_double(#[trigger] d[i]) == b[i] by {
        law_small_int_is_exact(b[i] as int);
    }
    assert(bytes_of(d) =~= b);
}

/// The names of a branch are read from equal shares of the text at `metadata/legend`: as
/// many as there are numbers at `metadata/ids`.
pub proof fn law_legend(
    b: Binout,
    branch: Seq<char>,
    t: Seq<Seq<char>>,
    names: Seq<Seq<u8>>,
    w: nat,
    rest: Seq<u8>,
    i: int,
)
    requires
        b.is_legend(branch, t),
        b.read_at(seq![branch, "metadata"@, "legend"@]) == Ok::<ReadView, LsdaFault>(
            ReadView::U8(names.flatten() + rest),
        ),
        b.read_at(seq![branch, "metadata"@, "ids"@]) is Ok,
        (b.read_at(seq![branch, "metadata"@, "ids"@])->Ok_0).doubles().len() == names.len(),
        w > 0,
        forall|k: int| 0 <= k < names.len() ==> (#[trigger] names[k]).len() == w,
        rest.len() < names.len(),
        0 <= i < names.len(),
    ensures
        t.len() == names.len(),
        t[i] == trimmed(text_of(names[i])),
{
    law_bytes_come_back(names.flatten() + rest);
    law_shares_are_the_names(names, w, rest, i);
}

} // verus!
