//! Paths as text, and back.

use crate::lsda::arena::{dir_meta, parts, to_slash, walked, went, Cursor};
use crate::lsda::graft::under;
use crate::lsda::load::lookup_name;
use crate::lsda::tree::{Path, SymMeta};
use crate::lsda::write::{joined, path_bytes};
use crate::text::text_of;
use vstd::prelude::*;
use vstd::utf8::encode_utf8;

verus! {

/// A name that stands for itself in a path.
pub open spec fn plain_name(n: Seq<u8>) -> bool {
    &&& n.len() > 0
    &&& n != seq![46u8, 46u8]
    &&& forall|i: int| 0 <= i < n.len() ==> #[trigger] n[i] != 47
}

pub open spec fn plain_path(p: Path) -> bool {
    forall|i: int| 0 <= i < p.len() ==> plain_name(#[trigger] p[i])
}

/// Every name with a slash in front.
pub open spec fn slashed(p: Path) -> Seq<u8>
    decreases p.len(),
{
    if p.len() == 0 {
        Seq::empty()
    } else {
        seq![47u8] + p[0] + slashed(p.drop_first())
    }
}

/// The text of a directory's path.
pub open spec fn dir_text(p: Path) -> Seq<u8> {
    if p.len() == 0 {
        seq![47u8]
    } else {
        slashed(p)
    }
}

pub proof fn lemma_slashed_push(p: Path, n: Seq<u8>)
    ensures
        slashed(p.push(n)) == slashed(p) + seq![47u8] + n,
    decreases p.len(),
{
    let q = p.push(n);
    if p.len() == 0 {
        assert(q.drop_first() =~= Path::empty());
        assert(slashed(q.drop_first()) =~= Seq::<u8>::empty());
        assert(slashed(q) =~= slashed(p) + seq![47u8] + n);
    } else {
        lemma_slashed_push(p.drop_first(), n);
        assert(q.drop_first() =~= p.drop_first().push(n));
        assert(q[0] == p[0]);
        assert(slashed(q) =~= slashed(p) + seq![47u8] + n);
    }
}

proof fn lemma_to_slash_name(n: Seq<u8>, rest: Seq<u8>)
    requires
        forall|i: int| 0 <= i < n.len() ==> #[trigger] n[i] != 47,
        rest.len() == 0 || rest[0] == 47,
    ensures
        to_slash(n + rest) == n.len(),
    decreases n.len(),
{
    let b = n + rest;
    if n.len() > 0 {
        assert forall|i: int| 0 <= i < n.drop_first().len() implies #[trigger] n.drop_first()[i]
            != 47 by {
            assert(n[i + 1] != 47);
        }
        lemma_to_slash_name(n.drop_first(), rest);
        assert(b.drop_first() =~= n.drop_first() + rest);
        assert(b[0] == n[0]);
    } else {
        assert(b =~= rest);
    }
}

/// The names of a path are found again in its text.
pub proof fn lemma_parts(p: Path)
    requires
        plain_path(p),
    ensures
        parts(slashed(p)) == p,
        parts(dir_text(p)) == p,
    decreases p.len(),
{
    let b = slashed(p);
    if p.len() == 0 {
        assert(b =~= Seq::<u8>::empty());
        assert(parts(b) =~= p);
        let s = seq![47u8];
        assert(to_slash(s) == 0);
        assert(s.skip(1) =~= Seq::<u8>::empty());
        assert(parts(s.skip(1)) =~= p);
    } else {
        let q = p.drop_first();
        assert(plain_path(q)) by {
            assert forall|i: int| 0 <= i < q.len() implies plain_name(#[trigger] q[i]) by {
                assert(q[i] == p[i + 1]);
            }
        }
        lemma_parts(q);
        let n = p[0];
        assert(plain_name(n));
        let r = slashed(q);
        assert(b[0] == 47);
        assert(to_slash(b) == 0);
        assert(b.skip(1) =~= n + r);
        lemma_to_slash_name(n, r);
        let x = n + r;
        assert(to_slash(x) == n.len());
        assert(parts(b) == parts(b.skip(1)));
        assert(parts(b) == parts(x));
        if r.len() == 0 {
            if q.len() > 0 {
                assert(r[0] == 47);
            }
            assert(q.len() == 0);
            assert(x =~= n);
            assert(parts(x) == seq![x]);
            assert(p =~= seq![n]);
        } else {
            assert(q.len() > 0);
            assert(r[0] == 47);
            assert(to_slash(r) == 0);
            assert(x.take(n.len() as int) =~= n);
            assert(x.skip((n.len() + 1) as int) =~= r.skip(1));
            assert(parts(r) == parts(r.skip(1)));
            assert(parts(x) == seq![n] + parts(r.skip(1)));
            assert(p =~= seq![n] + q);
        }
    }
}

/// Entries with the directories on the way to `d`, and `d` itself.
pub open spec fn with_dirs(e: Map<Path, SymMeta>, d: Path) -> Map<Path, SymMeta> {
    Map::new(
        |q: Path| e.contains_key(q) || under(q, d),
        |q: Path|
            if e.contains_key(q) {
                e[q]
            } else {
                dir_meta()
            },
    )
}

/// No dataset is at `d` or on the way to it.
pub open spec fn open_to(e: Map<Path, SymMeta>, d: Path) -> bool {
    &&& e.contains_key(Path::empty())
    &&& forall|k: int|
        0 <= k <= d.len() && e.contains_key(#[trigger] d.take(k)) ==> e[d.take(k)].type_ == 0
}

proof fn lemma_walk_down(e: Map<Path, SymMeta>, d: Path, k: int)
    requires
        plain_path(d),
        open_to(e, d),
        0 <= k <= d.len(),
    ensures
        walked(
            Cursor { entries: with_dirs(e, d.take(k)), cwd: d.take(k) },
            d.skip(k),
        ) == (Cursor { entries: with_dirs(e, d), cwd: d }),
    decreases d.len() - k,
{
    if k == d.len() {
        assert(d.take(k) =~= d);
        assert(d.skip(k) =~= Path::empty());
    } else {
        let here = with_dirs(e, d.take(k));
        let next = with_dirs(e, d.take(k + 1));
        let names = d.skip(k);
        let q = d.take(k).push(d[k]);
        assert(names[0] == d[k]);
        assert(plain_name(d[k]));
        assert(q =~= d.take(k + 1));
        assert(names.drop_first() =~= d.skip(k + 1));
        lemma_walk_down(e, d, k + 1);
        assert forall|r: Path| under(r, d.take(k + 1)) implies r == q || under(r, d.take(k)) by {
            if r.len() <= k {
                assert(d.take(k + 1).take(r.len() as int) =~= d.take(k).take(r.len() as int));
            } else {
                assert(d.take(k + 1).take(k + 1) =~= d.take(k + 1));
            }
        }
        assert forall|r: Path| under(r, d.take(k)) implies under(r, d.take(k + 1)) by {
            assert(d.take(k + 1).take(r.len() as int) =~= d.take(k).take(r.len() as int));
        }
        assert(under(q, d.take(k + 1))) by {
            assert(d.take(k + 1).take(k + 1) =~= d.take(k + 1));
        }
        if here.contains_key(q) {
            assert(!under(q, d.take(k)));
            assert(e.contains_key(d.take(k + 1)));
            assert(next =~= here);
        } else {
            assert(next =~= here.insert(q, dir_meta()));
        }
    }
}

/// Going to a directory by its text makes the directories on the way.
pub proof fn lemma_went(c: Cursor, d: Path)
    requires
        plain_path(d),
        open_to(c.entries, d),
    ensures
        went(c, dir_text(d)) == (Cursor { entries: with_dirs(c.entries, d), cwd: d }),
{
    lemma_parts(d);
    let e = c.entries;
    assert(dir_text(d)[0] == 47);
    lemma_walk_down(e, d, 0);
    assert(d.take(0) =~= Path::empty());
    assert(d.skip(0) =~= d);
    assert forall|q: Path| under(q, Path::empty()) implies e.contains_key(q) by {
        assert(q =~= Path::empty());
    }
    assert(with_dirs(e, Path::empty()) =~= e);
}

pub proof fn lemma_encode_concat(a: Seq<char>, b: Seq<char>)
    ensures
        encode_utf8(a + b) == encode_utf8(a) + encode_utf8(b),
    decreases a.len(),
{
    if a.len() == 0 {
        assert(a + b =~= b);
        assert(encode_utf8(a) =~= Seq::<u8>::empty());
        assert(encode_utf8(a) + encode_utf8(b) =~= encode_utf8(b));
    } else {
        assert((a + b).drop_first() =~= a.drop_first() + b);
        assert((a + b)[0] == a[0]);
        lemma_encode_concat(a.drop_first(), b);
        assert(encode_utf8(a + b) =~= encode_utf8(a) + encode_utf8(b));
    }
}

/// The text of the root.
pub proof fn lemma_root_text()
    ensures
        "/"@ == seq!['/'],
        path_bytes("/"@) == seq![47u8],
{
    reveal_strlit("/");
    assert("/"@ =~= seq!['/']);
    let s = seq!['/'];
    assert(vstd::utf8::is_ascii_chars(s));
    vstd::utf8::is_ascii_chars_encode_utf8(s);
    assert(encode_utf8(s) =~= seq![47u8]);
}

/// The path of a directory in a directory.
pub proof fn lemma_joined(path: Seq<char>, d: Path, name: Seq<u8>)
    requires
        path_bytes(path) == dir_text(d),
        plain_path(d),
        lookup_name(name) == name,
    ensures
        path_bytes(joined(path, name)) == dir_text(d.push(name)),
{
    lemma_root_text();
    lemma_slashed_push(d, name);
    let slash = "/"@;
    let t = text_of(name);
    if d.len() == 0 {
        vstd::utf8::encode_utf8_decode_utf8(path);
        vstd::utf8::encode_utf8_decode_utf8(slash);
        assert(path == slash);
        lemma_encode_concat(slash, t);
        assert(slashed(d) =~= Seq::<u8>::empty());
        assert(slashed(d) + seq![47u8] + name =~= seq![47u8] + name);
    } else {
        assert(plain_name(d[0]));
        assert(slashed(d).len() > 1);
        assert(path != slash);
        lemma_encode_concat(path, slash);
        lemma_encode_concat(path + slash, t);
    }
}

} // verus!
