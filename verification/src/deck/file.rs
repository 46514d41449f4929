//! A deck file, indexed by its keyword blocks.

use vstd::prelude::*;
use vstd::slice::slice_subrange;

verus! {

/// How the fields of a card are laid out.
#[derive(Debug, Clone, Copy, PartialEq, Eq, Structural)]
pub enum CardFormat {
    /// In columns.
    Fixed,
    /// In columns of double width.
    Long,
    /// Separated by commas.
    Free,
}

/// A keyword and its cards: where its name (without `*`) and its body are.
#[derive(Debug, Clone, Copy)]
pub struct Block {
    pub name_start: usize,
    pub name_end: usize,
    pub body_start: usize,
    pub body_end: usize,
    pub format: CardFormat,
}

/// A file and its blocks.
#[derive(Debug)]
pub struct ParsedFile {
    pub path: String,
    pub src: Vec<u8>,
    pub blocks: Vec<Block>,
}

/// A block lies in a file of `n` bytes.
pub open spec fn lies_in(b: Block, n: nat) -> bool {
    b.name_start <= b.name_end <= n && b.body_start <= b.body_end <= n
}

/// The name of a block.
pub open spec fn name_of(src: Seq<u8>, b: Block) -> Seq<u8> {
    src.subrange(b.name_start as int, b.name_end as int)
}

/// The body of a block.
pub open spec fn body_of(src: Seq<u8>, b: Block) -> Seq<u8> {
    src.subrange(b.body_start as int, b.body_end as int)
}

/// An ASCII letter in upper case; other bytes as they are.
pub open spec fn upper(c: u8) -> u8 {
    if 97 <= c <= 122 {
        (c - 32) as u8
    } else {
        c
    }
}

/// The same but for the case of ASCII letters.
pub open spec fn same_word(a: Seq<u8>, b: Seq<u8>) -> bool {
    a.len() == b.len() && forall|i: int| 0 <= i < a.len() ==> upper(#[trigger] a[i]) == upper(b[i])
}

fn to_upper(c: u8) -> (r: u8)
    ensures
        r == upper(c),
{
    if 97 <= c && c <= 122 {
        c - 32
    } else {
        c
    }
}

/// Compares names without regard to the case of ASCII letters.
pub fn same_name(a: &[u8], b: &[u8]) -> (r: bool)
    ensures
        r == same_word(a@, b@),
{
    if a.len() != b.len() {
        return false;
    }
    for i in 0..a.len()
        invariant
            a@.len() == b@.len(),
            forall|k: int| 0 <= k < i ==> upper(#[trigger] a@[k]) == upper(b@[k]),
    {
        if to_upper(a[i]) != to_upper(b[i]) {
            assert(upper(a@[i as int]) != upper(b@[i as int]));
            return false;
        }
    }
    true
}

/// The number of line ends.
pub open spec fn count_lines(b: Seq<u8>) -> nat
    decreases b.len(),
{
    if b.len() == 0 {
        0
    } else {
        count_lines(b.drop_last()) + if b.last() == 10 {
            1nat
        } else {
            0
        }
    }
}

impl ParsedFile {
    /// The blocks lie in the file.
    pub open spec fn wf(self) -> bool {
        forall|i: int|
            0 <= i < self.blocks@.len() ==> lies_in(#[trigger] self.blocks@[i], self.src@.len())
    }

    pub fn new(path: String, src: Vec<u8>, blocks: Vec<Block>) -> (r: Self)
        ensures
            r.path == path,
            r.src == src,
            r.blocks == blocks,
    {
        ParsedFile { path, src, blocks }
    }

    /// The name of a block, without `*`.
    pub fn keyword_name(&self, block: &Block) -> (r: &[u8])
        requires
            lies_in(*block, self.src@.len()),
        ensures
            r@ == name_of(self.src@, *block),
    {
        slice_subrange(self.src.as_slice(), block.name_start, block.name_end)
    }

    /// The bytes behind the keyword line of a block.
    pub fn body(&self, block: &Block) -> (r: &[u8])
        requires
            lies_in(*block, self.src@.len()),
        ensures
            r@ == body_of(self.src@, *block),
    {
        slice_subrange(self.src.as_slice(), block.body_start, block.body_end)
    }
}

/// The line of a block's keyword, counted from 1.
pub fn block_line(file: &ParsedFile, block: &Block) -> (r: usize)
    requires
        lies_in(*block, file.src@.len()),
        block.name_start < usize::MAX,
    ensures
        r == 1 + count_lines(file.src@.take(block.name_start as int)),
{
    let mut n: usize = 0;
    let ghost all = file.src@;
    assert(all.take(0) =~= Seq::<u8>::empty());
    let total: usize = file.src.len();
    for i in 0..block.name_start
        invariant
            block.name_start <= total,
            total == file.src@.len(),
            all == file.src@,
            n == count_lines(all.take(i as int)),
            n <= i,
    {
        assert(all.take(i + 1).drop_last() =~= all.take(i as int));
        assert(all.take(i + 1).last() == all[i as int]);
        if file.src[i] == 10 {
            n = n + 1;
        }
    }
    n + 1
}

} // verus!
