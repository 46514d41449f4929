//! Large decks to measure with: a tree of files that name one another.

use crate::text::{dec, push_dec};
use vstd::prelude::*;

verus! {

/// The most nodes that a file can have: up to it the coordinates are exact.
pub const MAX_NODES: usize = 0x7fff_ffff;

/// A file: its name and its text.
#[derive(Debug)]
pub struct TestFile {
    pub name: String,
    pub text: String,
}

/// Blanks.
pub open spec fn blanks(n: nat) -> Seq<char> {
    Seq::new(n, |i: int| ' ')
}

/// The text at the right end of `w` columns; a longer one as it is.
pub open spec fn right(s: Seq<char>, w: nat) -> Seq<char> {
    if s.len() < w {
        blanks((w - s.len()) as nat) + s
    } else {
        s
    }
}

/// `n` tenths, with six decimals.
pub open spec fn tenths(n: nat) -> Seq<char> {
    dec(n / 10) + "."@ + dec(n % 10) + "00000"@
}

/// The line of a node: its id and coordinates `1.5 i`, `2.5 i` and `0.1 i`, in 80
/// columns. An id of nine digits, as they are from the tenth file on, is written in
/// full, and makes the line 81 columns wide.
pub open spec fn node_line(nid: nat, i: nat) -> Seq<char> {
    right(dec(nid), 8) + right(tenths(15 * i), 16) + right(tenths(25 * i), 16) + right(
        tenths(i),
        16,
    ) + right(dec(0), 8) + right(dec(0), 8) + blanks(8) + "\n"@
}

/// The lines of the first `n` nodes of a file.
pub open spec fn node_lines(base: nat, n: nat) -> Seq<char>
    decreases n,
{
    if n == 0 {
        Seq::empty()
    } else {
        node_lines(base, (n - 1) as nat) + node_line(base + n, (n - 1) as nat)
    }
}

/// The number of files in a tree `rem` levels deep below its root.
pub open spec fn tree_size(rem: nat, breadth: nat) -> nat
    decreases rem,
{
    if rem == 0 {
        1
    } else {
        1 + breadth * tree_size((rem - 1) as nat, breadth)
    }
}

/// The name of child `i` of a file at depth `cur`, where the child is file `number` of
/// all, from 0.
pub open spec fn child_name(cur: nat, i: nat, number: nat) -> Seq<char> {
    "d"@ + dec(cur + 1) + "_b"@ + dec(i) + "_"@ + dec(number + i * 1000 + cur * 100) + ".k"@
}

/// The number of child `i` of file `c`.
pub open spec fn child_number(c: nat, rem: nat, breadth: nat, i: nat) -> nat {
    c + 1 + i * tree_size((rem - 1) as nat, breadth)
}

/// The lines that name child `i`: in one of four ways.
pub open spec fn naming(name: Seq<char>, i: nat) -> Seq<char> {
    if i % 4 == 0 {
        "*INCLUDE\n"@ + name + "\n"@
    } else if i % 4 == 1 {
        "*INCLUDE_TRANSFORM\n"@ + name + "\n"@
    } else if i % 4 == 2 {
        "*include\n"@ + name + "\n"@
    } else {
        "$# Comment before include\n*INCLUDE\n$# Another comment\n"@ + name + "\n"@
    }
}

/// The lines that name the first `n` children of file `c`.
pub open spec fn namings(c: nat, cur: nat, rem: nat, breadth: nat, n: nat) -> Seq<char>
    decreases n,
{
    if n == 0 {
        Seq::empty()
    } else {
        let i = (n - 1) as nat;
        namings(c, cur, rem, breadth, i) + naming(
            child_name(cur, i, child_number(c, rem, breadth, i)),
            i,
        )
    }
}

/// The text of file `c`.
pub open spec fn file_text(
    name: Seq<char>,
    c: nat,
    cur: nat,
    rem: nat,
    breadth: nat,
    nodes: nat,
) -> Seq<char> {
    "$# Generated test file: "@ + name + "\n$# Depth: "@ + dec(cur) + ", Breadth: "@ + dec(breadth)
        + "\n*KEYWORD\n*NODE\n"@ + node_lines((c + 1) * 10_000_000, nodes) + namings(
        c,
        cur,
        rem,
        breadth,
        if rem == 0 {
            0
        } else {
            breadth
        },
    ) + "*END\n"@
}

/// A name and a text.
pub type FileView = (Seq<char>, Seq<char>);

/// The files of the tree at file `c`: the file itself, then the trees of its children.
pub open spec fn tree(
    name: Seq<char>,
    c: nat,
    cur: nat,
    rem: nat,
    breadth: nat,
    nodes: nat,
) -> Seq<FileView>
    decreases rem, breadth + 1,
{
    seq![(name, file_text(name, c, cur, rem, breadth, nodes))] + (if rem == 0 {
        Seq::empty()
    } else {
        subtrees(c, cur, rem, breadth, nodes, breadth)
    })
}

/// The files of the trees of the first `n` children of file `c`.
pub open spec fn subtrees(c: nat, cur: nat, rem: nat, breadth: nat, nodes: nat, n: nat) -> Seq<
    FileView,
>
    decreases rem, n,
{
    if n == 0 || rem == 0 {
        Seq::empty()
    } else {
        let i = (n - 1) as nat;
        let number = child_number(c, rem, breadth, i);
        subtrees(c, cur, rem, breadth, nodes, i) + tree(
            child_name(cur, i, number),
            number,
            cur + 1,
            (rem - 1) as nat,
            breadth,
            nodes,
        )
    }
}

pub open spec fn file_views(s: Seq<TestFile>) -> Seq<FileView> {
    Seq::new(s.len(), |i: int| (s[i].name@, s[i].text@))
}

/// A tree has as many files as its size says.
pub proof fn law_tree_size(
    name: Seq<char>,
    c: nat,
    cur: nat,
    rem: nat,
    breadth: nat,
    nodes: nat,
)
    ensures
        tree(name, c, cur, rem, breadth, nodes).len() == tree_size(rem, breadth),
    decreases rem, breadth + 1,
{
    if rem > 0 {
        lemma_subtrees_len(c, cur, rem, breadth, nodes, breadth);
    }
}

proof fn lemma_subtrees_len(c: nat, cur: nat, rem: nat, breadth: nat, nodes: nat, n: nat)
    requires
        rem > 0,
    ensures
        subtrees(c, cur, rem, breadth, nodes, n).len() == n * tree_size((rem - 1) as nat, breadth),
    decreases rem, n,
{
    let t = tree_size((rem - 1) as nat, breadth);
    if n == 0 {
        assert(0 * t == 0) by (nonlinear_arith);
    } else {
        let i = (n - 1) as nat;
        let number = child_number(c, rem, breadth, i);
        lemma_subtrees_len(c, cur, rem, breadth, nodes, i);
        law_tree_size(
            child_name(cur, i, number),
            number,
            cur + 1,
            (rem - 1) as nat,
            breadth,
            nodes,
        );
        assert(n * t == i * t + t) by (nonlinear_arith)
            requires
                n == i + 1,
        ;
    }
}

fn push_right(out: &mut String, s: &str, w: usize)
    ensures
        final(out)@ == old(out)@ + right(s@, w as nat),
{
    let ghost start = out@;
    let n: usize = s.unicode_len();
    if n < w {
        let k: usize = w - n;
        for i in 0..k
            invariant
                out@ == start + blanks(i as nat),
        {
            out.append(" ");
            proof {
                reveal_strlit(" ");
                assert(out@ =~= start + blanks((i + 1) as nat));
            }
        }
        assert(k == w - n);
    }
    out.append(s);
    assert(out@ =~= start + right(s@, w as nat));
}

fn tenths_text(n: u64) -> (r: String)
    ensures
        r@ == tenths(n as nat),
{
    let mut s: String = String::from_str("");
    push_dec(&mut s, n / 10);
    s.append(".");
    push_dec(&mut s, n % 10);
    s.append("00000");
    proof {
        reveal_strlit("");
        assert(s@ =~= tenths(n as nat));
    }
    s
}

fn number_text(n: u64) -> (r: String)
    ensures
        r@ == dec(n as nat),
{
    let mut s: String = String::from_str("");
    push_dec(&mut s, n);
    proof {
        reveal_strlit("");
        assert(s@ =~= dec(n as nat));
    }
    s
}

fn push_node(out: &mut String, nid: u64, i: u64)
    requires
        i <= MAX_NODES,
    ensures
        final(out)@ == old(out)@ + node_line(nid as nat, i as nat),
{
    let ghost start = out@;
    let id: String = number_text(nid);
    let x: String = tenths_text(15 * i);
    let y: String = tenths_text(25 * i);
    let z: String = tenths_text(i);
    let zero: String = number_text(0);
    push_right(out, id.as_str(), 8);
    push_right(out, x.as_str(), 16);
    push_right(out, y.as_str(), 16);
    push_right(out, z.as_str(), 16);
    push_right(out, zero.as_str(), 8);
    push_right(out, zero.as_str(), 8);
    push_right(out, "", 8);
    out.append("\n");
    proof {
        reveal_strlit("");
        assert(right(""@, 8) =~= blanks(8));
        assert(out@ =~= start + node_line(nid as nat, i as nat));
    }
}

fn push_naming(out: &mut String, name: &str, i: usize)
    ensures
        final(out)@ == old(out)@ + naming(name@, i as nat),
{
    let ghost start = out@;
    if i % 4 == 0 {
        out.append("*INCLUDE\n");
    } else if i % 4 == 1 {
        out.append("*INCLUDE_TRANSFORM\n");
    } else if i % 4 == 2 {
        out.append("*include\n");
    } else {
        out.append("$# Comment before include\n*INCLUDE\n$# Another comment\n");
    }
    out.append(name);
    out.append("\n");
    assert(out@ =~= start + naming(name@, i as nat));
}

/// The numbers of a tree of files fit into machine words.
pub open spec fn fits(total: nat, cur: nat, rem: nat, breadth: nat) -> bool {
    &&& (total + 1) * 10_000_000 + MAX_NODES <= u64::MAX
    &&& total + breadth * 1000 + (cur + rem) * 100 + 1000 <= u64::MAX
    &&& total < usize::MAX
}

proof fn lemma_child_in_tree(c: nat, rem: nat, breadth: nat, i: nat)
    requires
        rem > 0,
        i < breadth,
    ensures
        child_number(c, rem, breadth, i) + tree_size((rem - 1) as nat, breadth) <= c + tree_size(
            rem,
            breadth,
        ),
        tree_size((rem - 1) as nat, breadth) >= 1,
{
    let t = tree_size((rem - 1) as nat, breadth);
    assert(i * t + t <= breadth * t) by (nonlinear_arith)
        requires
            i + 1 <= breadth,
            t >= 0,
    ;
}

fn text_of_child(cur: usize, i: usize, number: u64) -> (r: String)
    requires
        cur < usize::MAX,
        number + i * 1000 + cur * 100 <= u64::MAX,
    ensures
        r@ == child_name(cur as nat, i as nat, number as nat),
{
    let mut s: String = String::from_str("d");
    push_dec(&mut s, (cur + 1) as u64);
    s.append("_b");
    push_dec(&mut s, i as u64);
    s.append("_");
    push_dec(&mut s, number + (i as u64) * 1000 + (cur as u64) * 100);
    s.append(".k");
    s
}

/// Adds the files of a tree, of which the first is `name`, behind those before them.
fn generate_file(
    out: &mut Vec<TestFile>,
    name: String,
    cur: usize,
    rem: usize,
    breadth: usize,
    nodes: usize,
)
    requires
        nodes <= MAX_NODES,
        cur + rem < usize::MAX,
        fits(old(out)@.len() + tree_size(rem as nat, breadth as nat), cur as nat, rem as nat, breadth as nat),
    ensures
        file_views(final(out)@) == file_views(old(out)@) + tree(
            name@,
            old(out)@.len(),
            cur as nat,
            rem as nat,
            breadth as nat,
            nodes as nat,
        ),
    decreases rem,
{
    let ghost start = file_views(out@);
    let c: usize = out.len();
    let ghost cn = c as nat;
    let ghost size = tree_size(rem as nat, breadth as nat);
    let ghost step = tree_size((rem - 1) as nat, breadth as nat);
    let mut text: String = String::from_str("$# Generated test file: ");
    text.append(name.as_str());
    text.append("\n$# Depth: ");
    push_dec(&mut text, cur as u64);
    text.append(", Breadth: ");
    push_dec(&mut text, breadth as u64);
    text.append("\n*KEYWORD\n*NODE\n");
    let ghost head = text@;
    let base: u64 = (c as u64 + 1) * 10_000_000;
    assert(head + node_lines(base as nat, 0) =~= head);
    for i in 0..nodes
        invariant
            nodes <= MAX_NODES,
            base + MAX_NODES <= u64::MAX,
            text@ == head + node_lines(base as nat, i as nat),
    {
        push_node(&mut text, base + i as u64 + 1, i as u64);
        assert(text@ =~= head + node_lines(base as nat, (i + 1) as nat));
    }
    let ghost body = text@;
    let own: String = String::from_str(name.as_str());
    out.push(TestFile { name: own, text: String::from_str("") });
    let ghost kept = seq![(name@, ""@)];
    assert(file_views(out@) =~= start + kept + subtrees(cn, cur as nat, rem as nat, breadth as nat, nodes as nat, 0));
    assert(body + namings(cn, cur as nat, rem as nat, breadth as nat, 0) =~= body);
    if rem > 0 {
        assert(0 * step == 0) by (nonlinear_arith);
        for i in 0..breadth
            invariant
                rem > 0,
                c == cn,
                nodes <= MAX_NODES,
                cur + rem < usize::MAX,
                size == tree_size(rem as nat, breadth as nat),
                step == tree_size((rem - 1) as nat, breadth as nat),
                fits(cn + size, cur as nat, rem as nat, breadth as nat),
                out@.len() == cn + 1 + i * step,
                start.len() == cn,
                kept.len() == 1,
                file_views(out@) == start + kept + subtrees(
                    cn,
                    cur as nat,
                    rem as nat,
                    breadth as nat,
                    nodes as nat,
                    i as nat,
                ),
                text@ == body + namings(cn, cur as nat, rem as nat, breadth as nat, i as nat),
        {
            proof {
                lemma_child_in_tree(cn, rem as nat, breadth as nat, i as nat);
                assert(i * step + step == (i + 1) * step) by (nonlinear_arith);
            }
            let number: u64 = out.len() as u64;
            let child: String = text_of_child(cur, i, number);
            push_naming(&mut text, child.as_str(), i);
            assert(text@ =~= body + namings(
                cn,
                cur as nat,
                rem as nat,
                breadth as nat,
                (i + 1) as nat,
            ));
            let ghost before = file_views(out@);
            generate_file(out, child, cur + 1, rem - 1, breadth, nodes);
            proof {
                law_tree_size(
                    child_name(cur as nat, i as nat, number as nat),
                    number as nat,
                    (cur + 1) as nat,
                    (rem - 1) as nat,
                    breadth as nat,
                    nodes as nat,
                );
                assert(file_views(out@).len() == out@.len());
                assert(file_views(out@) =~= start + kept + subtrees(
                    cn,
                    cur as nat,
                    rem as nat,
                    breadth as nat,
                    nodes as nat,
                    (i + 1) as nat,
                ));
            }
        }
    }
    text.append("*END\n");
    let ghost before = file_views(out@);
    assert(out@.len() > c) by {
        assert(file_views(out@).len() == out@.len());
    }
    out[c].text = text;
    proof {
        let all = tree(name@, cn, cur as nat, rem as nat, breadth as nat, nodes as nat);
        assert(text@ == file_text(
            name@,
            cn,
            cur as nat,
            rem as nat,
            breadth as nat,
            nodes as nat,
        ));
        assert(before[c as int] == (name@, ""@));
        assert(file_views(out@) =~= before.update(c as int, (name@, text@)));
        assert(file_views(out@) =~= start + all);
    }
}

proof fn lemma_size_grows(a: nat, b: nat, breadth: nat)
    requires
        a <= b,
    ensures
        1 <= tree_size(a, breadth) <= tree_size(b, breadth) || breadth == 0,
        tree_size(a, breadth) >= 1,
    decreases b,
{
    if b > 0 {
        let t = tree_size((b - 1) as nat, breadth);
        lemma_size_grows((b - 1) as nat, (b - 1) as nat, breadth);
        if a < b {
            lemma_size_grows(a, (b - 1) as nat, breadth);
        }
        assert(breadth >= 1 ==> breadth * t >= t) by (nonlinear_arith)
            requires
                t >= 0,
        ;
    }
}

/// Tells whether the numbers of a tree of files fit into machine words.
pub fn can_generate(depth: usize, breadth: usize, nodes_per_file: usize) -> (r: bool)
    ensures
        r == (nodes_per_file <= MAX_NODES && depth < usize::MAX && fits(
            tree_size(depth as nat, breadth as nat),
            0,
            depth as nat,
            breadth as nat,
        )),
{
    if nodes_per_file > MAX_NODES || depth == usize::MAX {
        return false;
    }
    let limit: u128 = 0x1_0000_0000_0000_0000;
    let mut size: u128 = 1;
    let mut k: usize = 0;
    while k < depth
        invariant
            k <= depth,
            limit == 0x1_0000_0000_0000_0000,
            1 <= size <= limit,
            size == tree_size(k as nat, breadth as nat),
        decreases depth - k,
    {
        proof {
            assert(breadth * size <= 0xffff_ffff_ffff_ffff * limit) by (nonlinear_arith)
                requires
                    breadth <= 0xffff_ffff_ffff_ffff,
                    size <= limit,
            ;
        }
        let ghost last = size;
        size = 1 + breadth as u128 * size;
        k = k + 1;
        assert(size == tree_size(k as nat, breadth as nat));
        if size > limit {
            proof {
                lemma_size_grows(k as nat, depth as nat, breadth as nat);
                assert(breadth == 0 ==> breadth * tree_size((k - 1) as nat, breadth as nat) == 0)
                    by (nonlinear_arith);
            }
            return false;
        }
        if breadth == 0 {
            proof {
                assert(breadth * tree_size((depth - 1) as nat, breadth as nat) == 0)
                    by (nonlinear_arith)
                    requires
                        breadth == 0,
                ;
                assert(breadth * last == 0) by (nonlinear_arith)
                    requires
                        breadth == 0,
                ;
            }
            k = depth;
        }
    }
    (size + 1) * 10_000_000 + MAX_NODES as u128 <= u64::MAX as u128 && size + breadth as u128
        * 1000 + depth as u128 * 100 + 1000 <= u64::MAX as u128 && size < usize::MAX as u128
}

/// The files of a tree of a depth and a breadth, each with some nodes, in the order in
/// which they are made: the root file first.
pub fn generate_test_files(depth: usize, breadth: usize, nodes_per_file: usize) -> (r: Vec<
    TestFile,
>)
    requires
        nodes_per_file <= MAX_NODES,
        depth < usize::MAX,
        fits(tree_size(depth as nat, breadth as nat), 0, depth as nat, breadth as nat),
    ensures
        file_views(r@) == tree(
            "root.k"@,
            0,
            0,
            depth as nat,
            breadth as nat,
            nodes_per_file as nat,
        ),
{
    let mut out: Vec<TestFile> = Vec::new();
    let ghost none = file_views(out@);
    generate_file(&mut out, String::from_str("root.k"), 0, depth, breadth, nodes_per_file);
    assert(none =~= Seq::<FileView>::empty());
    assert(file_views(out@) =~= tree(
        "root.k"@,
        0,
        0,
        depth as nat,
        breadth as nat,
        nodes_per_file as nat,
    ));
    out
}

pub open spec fn is_digit(c: char) -> bool {
    '0' <= c && c <= '9'
}

proof fn lemma_dec_digits(n: nat)
    ensures
        dec(n).len() >= 1,
        forall|i: int| 0 <= i < dec(n).len() ==> is_digit(#[trigger] dec(n)[i]),
    decreases n,
{
    if n >= 10 {
        lemma_dec_digits(n / 10);
    }
}

proof fn lemma_dec_injective(a: nat, b: nat)
    requires
        dec(a) == dec(b),
    ensures
        a == b,
    decreases a,
{
    lemma_dec_digits(a / 10);
    lemma_dec_digits(b / 10);
    let (x, y) = (dec(a), dec(b));
    if a < 10 && b < 10 {
        assert(x[0] == y[0]);
    } else if a < 10 {
        assert(y.len() >= 2);
    } else if b < 10 {
        assert(x.len() >= 2);
    } else {
        assert(x.drop_last() =~= dec(a / 10));
        assert(y.drop_last() =~= dec(b / 10));
        lemma_dec_injective(a / 10, b / 10);
        assert(x.last() == y.last());
    }
}

/// A number with no digit behind it ends at one place only.
proof fn lemma_number_ends(a: nat, s: Seq<char>, b: nat, t: Seq<char>)
    requires
        dec(a) + s == dec(b) + t,
        s.len() > 0 && !is_digit(s[0]),
        t.len() > 0 && !is_digit(t[0]),
    ensures
        a == b,
        s == t,
{
    lemma_dec_digits(a);
    lemma_dec_digits(b);
    let (x, y) = (dec(a), dec(b));
    let all = x + s;
    if x.len() < y.len() {
        assert(all[x.len() as int] == s[0]);
        assert((y + t)[x.len() as int] == y[x.len() as int]);
    }
    if y.len() < x.len() {
        assert((y + t)[y.len() as int] == t[0]);
        assert(all[y.len() as int] == x[y.len() as int]);
    }
    assert(all.take(x.len() as int) =~= x);
    assert((y + t).take(y.len() as int) =~= y);
    lemma_dec_injective(a, b);
    assert(all.skip(x.len() as int) =~= s);
    assert((y + t).skip(y.len() as int) =~= t);
}

#[verifier::rlimit(60)]
#[verifier::spinoff_prover]
proof fn lemma_child_names(d: nat, i: nat, m: nat, e: nat, j: nat, n: nat)
    requires
        child_name(d, i, m) == child_name(e, j, n),
    ensures
        m == n,
{
    reveal_strlit("d");
    reveal_strlit("_b");
    reveal_strlit("_");
    reveal_strlit(".k");
    let u = dec(m + i * 1000 + d * 100) + ".k"@;
    let v = dec(n + j * 1000 + e * 100) + ".k"@;
    let s = "_b"@ + (dec(i) + ("_"@ + u));
    let t = "_b"@ + (dec(j) + ("_"@ + v));
    let x = dec(d + 1) + s;
    let y = dec(e + 1) + t;
    assert(child_name(d, i, m) =~= "d"@ + x);
    assert(child_name(e, j, n) =~= "d"@ + y);
    assert(("d"@ + x).skip(1) =~= x);
    assert(("d"@ + y).skip(1) =~= y);
    lemma_number_ends(d + 1, s, e + 1, t);
    assert(s.skip(2) =~= dec(i) + ("_"@ + u));
    assert(t.skip(2) =~= dec(j) + ("_"@ + v));
    lemma_number_ends(i, "_"@ + u, j, "_"@ + v);
    assert(("_"@ + u).skip(1) =~= u);
    assert(("_"@ + v).skip(1) =~= v);
    lemma_number_ends(m + i * 1000 + d * 100, ".k"@, n + j * 1000 + e * 100, ".k"@);
}

/// The name is one for file `number` as a child of some file.
pub open spec fn is_named(name: Seq<char>, number: nat) -> bool {
    exists|d: nat, i: nat| name == #[trigger] child_name(d, i, number)
}

proof fn lemma_tree_names(
    name: Seq<char>,
    c: nat,
    cur: nat,
    rem: nat,
    breadth: nat,
    nodes: nat,
)
    ensures
        tree(name, c, cur, rem, breadth, nodes)[0].0 == name,
        forall|k: int|
            1 <= k < tree(name, c, cur, rem, breadth, nodes).len() ==> is_named(
                (#[trigger] tree(name, c, cur, rem, breadth, nodes)[k]).0,
                (c + k) as nat,
            ),
    decreases rem, breadth + 1,
{
    let all = tree(name, c, cur, rem, breadth, nodes);
    if rem > 0 {
        lemma_subtree_names(c, cur, rem, breadth, nodes, breadth);
        let sub = subtrees(c, cur, rem, breadth, nodes, breadth);
        assert forall|k: int| 1 <= k < all.len() implies is_named(
            (#[trigger] all[k]).0,
            (c + k) as nat,
        ) by {
            assert(all[k] == sub[k - 1]);
            assert((c + 1 + (k - 1)) as nat == (c + k) as nat);
        }
    }
}

proof fn lemma_subtree_names(c: nat, cur: nat, rem: nat, breadth: nat, nodes: nat, n: nat)
    requires
        rem > 0,
    ensures
        forall|k: int|
            0 <= k < subtrees(c, cur, rem, breadth, nodes, n).len() ==> is_named(
                (#[trigger] subtrees(c, cur, rem, breadth, nodes, n)[k]).0,
                (c + 1 + k) as nat,
            ),
    decreases rem, n,
{
    if n > 0 {
        let i = (n - 1) as nat;
        let number = child_number(c, rem, breadth, i);
        let child = child_name(cur, i, number);
        let before = subtrees(c, cur, rem, breadth, nodes, i);
        let own = tree(child, number, cur + 1, (rem - 1) as nat, breadth, nodes);
        let all = subtrees(c, cur, rem, breadth, nodes, n);
        lemma_subtree_names(c, cur, rem, breadth, nodes, i);
        lemma_tree_names(child, number, cur + 1, (rem - 1) as nat, breadth, nodes);
        lemma_subtrees_len(c, cur, rem, breadth, nodes, i);
        assert(all == before + own);
        assert forall|k: int| 0 <= k < all.len() implies is_named(
            (#[trigger] all[k]).0,
            (c + 1 + k) as nat,
        ) by {
            if k < before.len() {
                assert(all[k] == before[k]);
            } else {
                let m = k - before.len();
                assert(all[k] == own[m]);
                assert(number + m == c + 1 + k);
                if m == 0 {
                    assert(is_named(child, number));
                }
            }
        }
    }
}

/// No two files of a tree have the same name.
pub proof fn law_names_are_unique(depth: nat, breadth: nat, nodes: nat, j: int, k: int)
    requires
        0 <= j < k < tree("root.k"@, 0, 0, depth, breadth, nodes).len(),
    ensures
        tree("root.k"@, 0, 0, depth, breadth, nodes)[j].0 != tree(
            "root.k"@,
            0,
            0,
            depth,
            breadth,
            nodes,
        )[k].0,
{
    let all = tree("root.k"@, 0, 0, depth, breadth, nodes);
    lemma_tree_names("root.k"@, 0, 0, depth, breadth, nodes);
    assert(is_named(all[k].0, k as nat));
    let (e, y) = choose|d: nat, i: nat| all[k].0 == #[trigger] child_name(d, i, k as nat);
    reveal_strlit("root.k");
    reveal_strlit("d");
    if j == 0 {
        assert(child_name(e, y, k as nat)[0] == 'd');
        assert("root.k"@[0] == 'r');
    } else {
        assert(is_named(all[j].0, j as nat));
        let (d, x) = choose|d: nat, i: nat| all[j].0 == #[trigger] child_name(d, i, j as nat);
        if all[j].0 == all[k].0 {
            lemma_child_names(d, x, j as nat, e, y, k as nat);
        }
    }
}

} // verus!
