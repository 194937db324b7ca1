//! The OpenType table checksum: a wrapping sum of big-endian `u32` words, with
//! the final partial word zero-padded.

use vstd::prelude::*;

use crate::cursor::be32_at;

verus! {

/// `u32` addition modulo `2^32`. Kept closed so that sums stay atomic to the
/// solver; the lemmas below give the algebra the proofs need.
pub closed spec fn wadd(a: u32, b: u32) -> u32 {
    ((a + b) % 0x1_0000_0000) as u32
}

/// `u32` subtraction modulo `2^32`.
pub closed spec fn wsub(a: u32, b: u32) -> u32 {
    ((a - b) % 0x1_0000_0000) as u32
}

/// Executable wrapping addition, tied to [`wadd`].
pub fn wadd_exec(a: u32, b: u32) -> (r: u32)
    ensures
        r == wadd(a, b),
{
    a.wrapping_add(b)
}

/// Executable wrapping subtraction, tied to [`wsub`].
pub fn wsub_exec(a: u32, b: u32) -> (r: u32)
    ensures
        r == wsub(a, b),
{
    a.wrapping_sub(b)
}

pub proof fn lemma_wadd_zero(a: u32)
    ensures
        wadd(a, 0) == a,
        wadd(0, a) == a,
{
}

pub proof fn lemma_wadd_comm(a: u32, b: u32)
    ensures
        wadd(a, b) == wadd(b, a),
{
}

pub proof fn lemma_wadd_assoc(a: u32, b: u32, c: u32)
    ensures
        wadd(wadd(a, b), c) == wadd(a, wadd(b, c)),
{
    assert(wadd(wadd(a, b), c) == ((a + b + c) % 0x1_0000_0000) as u32) by {
        assert((((a + b) % 0x1_0000_0000) + c) % 0x1_0000_0000 == (a + b + c) % 0x1_0000_0000)
            by (nonlinear_arith);
    }
    assert(wadd(a, wadd(b, c)) == ((a + b + c) % 0x1_0000_0000) as u32) by {
        assert((a + ((b + c) % 0x1_0000_0000)) % 0x1_0000_0000 == (a + b + c) % 0x1_0000_0000)
            by (nonlinear_arith);
    }
}

/// Subtracting zero changes nothing.
pub proof fn lemma_wsub_zero(a: u32)
    ensures
        wsub(a, 0) == a,
{
}

/// Wrapping subtraction undoes wrapping addition.
pub proof fn lemma_wsub_wadd(a: u32, b: u32)
    ensures
        wadd(wsub(a, b), b) == a,
        wsub(wadd(a, b), b) == a,
{
    assert(((a - b) % 0x1_0000_0000 + b) % 0x1_0000_0000 == a as int) by (nonlinear_arith)
        requires
            0 <= a < 0x1_0000_0000,
            0 <= b < 0x1_0000_0000,
    ;
    assert(((a + b) % 0x1_0000_0000 - b) % 0x1_0000_0000 == a as int) by (nonlinear_arith)
        requires
            0 <= a < 0x1_0000_0000,
            0 <= b < 0x1_0000_0000,
    ;
}

/// The big-endian word at `s[i..i + 4]`, zero-padded past the end of `s`.
pub open spec fn word_at(s: Seq<u8>, i: int) -> u32
    recommends
        0 <= i < s.len(),
{
    let b0: u8 = if i < s.len() { s[i] } else { 0 };
    let b1: u8 = if i + 1 < s.len() { s[i + 1] } else { 0 };
    let b2: u8 = if i + 2 < s.len() { s[i + 2] } else { 0 };
    let b3: u8 = if i + 3 < s.len() { s[i + 3] } else { 0 };
    (b0 * 0x100_0000 + b1 * 0x1_0000 + b2 * 0x100 + b3) as u32
}

/// Wrapping sum of the words of `s` from position `i` on.
pub open spec fn checksum_from(s: Seq<u8>, i: int) -> u32
    decreases s.len() - i when 0 <= i
{
    if i >= s.len() {
        0
    } else {
        let next = if i + 4 <= s.len() {
            i + 4
        } else {
            s.len() as int
        };
        wadd(word_at(s, i), checksum_from(s, next))
    }
}

/// The OpenType checksum of a byte sequence.
pub open spec fn spec_checksum(s: Seq<u8>) -> u32 {
    checksum_from(s, 0)
}

/// Past the end of `a` inside `a + b`, the word sum is the word sum of `b`.
proof fn lemma_checksum_shift(a: Seq<u8>, b: Seq<u8>, j: int)
    requires
        0 <= j,
    ensures
        checksum_from(a + b, a.len() + j) == checksum_from(b, j),
    decreases b.len() - j,
{
    if j >= b.len() {
    } else {
        assert(word_at(a + b, a.len() + j) == word_at(b, j));
        let next = if j + 4 <= b.len() {
            j + 4
        } else {
            b.len() as int
        };
        lemma_checksum_shift(a, b, next);
    }
}

proof fn lemma_checksum_concat_from(a: Seq<u8>, b: Seq<u8>, i: int)
    requires
        a.len() % 4 == 0,
        0 <= i <= a.len(),
        i % 4 == 0,
    ensures
        checksum_from(a + b, i) == wadd(checksum_from(a, i), checksum_from(b, 0)),
    decreases a.len() - i,
{
    if i == a.len() {
        lemma_checksum_shift(a, b, 0);
        assert(checksum_from(a, i) == 0);
    } else {
        assert(i + 4 <= a.len());
        assert(word_at(a + b, i) == word_at(a, i));
        lemma_checksum_concat_from(a, b, i + 4);
        lemma_wadd_assoc(word_at(a, i), checksum_from(a, i + 4), checksum_from(b, 0));
    }
}

/// Checksums add over a concatenation at a word boundary.
pub proof fn lemma_checksum_concat(a: Seq<u8>, b: Seq<u8>)
    requires
        a.len() % 4 == 0,
    ensures
        spec_checksum(a + b) == wadd(spec_checksum(a), spec_checksum(b)),
{
    lemma_checksum_concat_from(a, b, 0);
}

/// Computes the OpenType checksum of `bytes`.
pub(crate) fn checksum(bytes: &[u8]) -> (r: u32)
    ensures
        r == spec_checksum(bytes@),
{
    let len = bytes.len();
    let mut acc: u32 = 0;
    let mut i: usize = 0;
    while i < len
        invariant
            0 <= i <= len,
            i % 4 == 0 || i == len,
            len == bytes@.len(),
            wadd(acc, checksum_from(bytes@, i as int)) == spec_checksum(bytes@),
        decreases len - i,
    {
        let b0 = bytes[i];
        let b1 = if i + 1 < len {
            bytes[i + 1]
        } else {
            0
        };
        let b2 = if i + 2 < len {
            bytes[i + 2]
        } else {
            0
        };
        let b3 = if i + 3 < len {
            bytes[i + 3]
        } else {
            0
        };
        let word = (b0 as u32) * 0x100_0000 + (b1 as u32) * 0x1_0000 + (b2 as u32) * 0x100 + (
        b3 as u32);
        let next = if len - i < 4 {
            len
        } else {
            i + 4
        };
        proof {
            assert(word == word_at(bytes@, i as int));
            assert(checksum_from(bytes@, i as int) == wadd(
                word_at(bytes@, i as int),
                checksum_from(bytes@, next as int),
            ));
            lemma_wadd_assoc(acc, word_at(bytes@, i as int), checksum_from(bytes@, next as int));
        }
        acc = wadd_exec(acc, word);
        i = next;
    }
    proof {
        assert(checksum_from(bytes@, i as int) == 0);
        lemma_wadd_zero(acc);
    }
    acc
}

} // verus!
