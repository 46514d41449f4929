//! Unsigned numbers in either byte order.

use crate::le::{le_at, lemma_le_at_bound, lemma_pow256_values, pow256};
use byteorder::{BigEndian, ByteOrder, LittleEndian};
use vstd::prelude::*;

verus! {

/// The unsigned number held, most significant byte first, by the `n` bytes of `s`
/// from position `o` on.
pub open spec fn be_at(s: Seq<u8>, o: int, n: nat) -> nat
    decreases n,
{
    if n == 0 {
        0
    } else {
        256 * be_at(s, o, (n - 1) as nat) + s[o + n - 1] as nat
    }
}

/// The unsigned number in the `n` bytes of `s` from position `o` on.
pub open spec fn uint_at(s: Seq<u8>, o: int, n: nat, le: bool) -> nat {
    if le {
        le_at(s, o, n)
    } else {
        be_at(s, o, n)
    }
}

/// The sizes, in bytes, that a number can have.
pub open spec fn is_field_size(n: int) -> bool {
    n == 1 || n == 2 || n == 4 || n == 8
}

pub proof fn lemma_be_at_bound(s: Seq<u8>, o: int, n: nat)
    ensures
        be_at(s, o, n) < pow256(n),
    decreases n,
{
    if n > 0 {
        lemma_be_at_bound(s, o, (n - 1) as nat);
    }
}

/// Numbers of eight bytes at most fit a machine word.
pub proof fn lemma_uint_bound(s: Seq<u8>, o: int, n: nat, le: bool)
    ensures
        uint_at(s, o, n, le) < pow256(n),
        is_field_size(n as int) ==> uint_at(s, o, n, le) <= u64::MAX,
{
    lemma_be_at_bound(s, o, n);
    lemma_le_at_bound(s, o, n);
    lemma_pow256_values();
    assert(pow256(1) == 256) by {
        reveal_with_fuel(pow256, 2);
    }
    assert(pow256(2) == 65536) by {
        reveal_with_fuel(pow256, 3);
    }
}

proof fn lemma_be_at_same(s: Seq<u8>, o: int, t: Seq<u8>, p: int, n: nat)
    requires
        forall|j: int| 0 <= j < n ==> #[trigger] s[o + j] == t[p + j],
    ensures
        be_at(s, o, n) == be_at(t, p, n),
    decreases n,
{
    if n > 0 {
        lemma_be_at_same(s, o, t, p, (n - 1) as nat);
        assert(s[o + (n - 1)] == t[p + (n - 1)]);
    }
}

/// The same bytes hold the same number.
pub proof fn lemma_uint_same(s: Seq<u8>, o: int, t: Seq<u8>, p: int, n: nat, le: bool)
    requires
        forall|j: int| 0 <= j < n ==> #[trigger] s[o + j] == t[p + j],
    ensures
        uint_at(s, o, n, le) == uint_at(t, p, n, le),
{
    lemma_be_at_same(s, o, t, p, n);
    crate::le::lemma_le_at_same(s, o, t, p, n);
}

/// Calls `LittleEndian::read_u16`, which gives the number in the first two bytes,
/// least significant byte first, and panics where there are fewer.
#[verifier::external_body]
fn read_u16_little(b: &[u8]) -> (r: u16)
    requires
        b@.len() >= 2,
    ensures
        r == le_at(b@, 0, 2),
{
    LittleEndian::read_u16(b)
}

/// Calls `BigEndian::read_u16`, which gives the number in the first two bytes,
/// most significant byte first, and panics where there are fewer.
#[verifier::external_body]
fn read_u16_big(b: &[u8]) -> (r: u16)
    requires
        b@.len() >= 2,
    ensures
        r == be_at(b@, 0, 2),
{
    BigEndian::read_u16(b)
}

/// Calls `LittleEndian::read_u32`, which gives the number in the first four bytes,
/// least significant byte first, and panics where there are fewer.
#[verifier::external_body]
fn read_u32_little(b: &[u8]) -> (r: u32)
    requires
        b@.len() >= 4,
    ensures
        r == le_at(b@, 0, 4),
{
    LittleEndian::read_u32(b)
}

/// Calls `BigEndian::read_u32`, which gives the number in the first four bytes,
/// most significant byte first, and panics where there are fewer.
#[verifier::external_body]
fn read_u32_big(b: &[u8]) -> (r: u32)
    requires
        b@.len() >= 4,
    ensures
        r == be_at(b@, 0, 4),
{
    BigEndian::read_u32(b)
}

/// Calls `LittleEndian::read_u64`, which gives the number in the first eight bytes,
/// least significant byte first, and panics where there are fewer.
#[verifier::external_body]
fn read_u64_little(b: &[u8]) -> (r: u64)
    requires
        b@.len() >= 8,
    ensures
        r == le_at(b@, 0, 8),
{
    LittleEndian::read_u64(b)
}

/// Calls `BigEndian::read_u64`, which gives the number in the first eight bytes,
/// most significant byte first, and panics where there are fewer.
#[verifier::external_body]
fn read_u64_big(b: &[u8]) -> (r: u64)
    requires
        b@.len() >= 8,
    ensures
        r == be_at(b@, 0, 8),
{
    BigEndian::read_u64(b)
}

/// The number in the first `size` bytes of `data`: `None` when there are not as
/// many, or when no number has that size.
pub open spec fn int_in(data: Seq<u8>, size: u8, le: bool) -> Option<u64> {
    if data.len() < size || !is_field_size(size as int) {
        None
    } else {
        Some(uint_at(data, 0, size as nat, le) as u64)
    }
}

/// Reads a number of `size` bytes from the head of `data`; `None` when the bytes
/// are too few or the size is none of 1, 2, 4 and 8.
pub fn read_int(data: &[u8], size: u8, le: bool) -> (r: Option<u64>)
    ensures
        r == int_in(data@, size, le),
{
    if data.len() < size as usize {
        return None;
    }
    proof {
        lemma_uint_bound(data@, 0, size as nat, le);
    }
    if size == 1 {
        proof {
            reveal_with_fuel(le_at, 2);
            reveal_with_fuel(be_at, 2);
        }
        Some(data[0] as u64)
    } else if size == 2 {
        Some(if le { read_u16_little(data) as u64 } else { read_u16_big(data) as u64 })
    } else if size == 4 {
        Some(if le { read_u32_little(data) as u64 } else { read_u32_big(data) as u64 })
    } else if size == 8 {
        Some(if le { read_u64_little(data) } else { read_u64_big(data) })
    } else {
        None
    }
}

} // verus!
