//! Facts about single bits of 64-bit words.
//!
//! The operator container packs one operator per bit position; everything it
//! does to whole words is explained here bit by bit.

use vstd::prelude::*;

verus! {

/// Number of operators packed in one storage word.
pub const WIDTH: usize = 64;

/// Bit `o` of `w` (for `o < 64`).
pub open spec fn bit(w: u64, o: u64) -> bool {
    (w >> o) & 1u64 == 1u64
}

/// The word index of storage slot `index`.
pub fn get_stride(index: usize) -> (r: usize)
    ensures
        r == index / 64,
{
    index / WIDTH
}

/// The bit position of storage slot `index` inside its word.
pub fn get_offset(index: usize) -> (r: usize)
    ensures
        r == index % 64,
        r < 64,
{
    index % WIDTH
}

/// Reads bit `o` of `w`.
pub fn test_bit(w: u64, o: usize) -> (b: bool)
    requires
        o < 64,
    ensures
        b == bit(w, o as u64),
{
    (w >> (o as u64)) & 1u64 == 1u64
}

/// The word 0 has no bit set.
pub proof fn lemma_bit_zero(o: u64)
    requires
        o < 64,
    ensures
        !bit(0u64, o),
{
    assert((0u64 >> o) & 1u64 != 1u64) by (bit_vector);
}

/// Setting bit `o` of a word sets that bit and leaves the others.
pub proof fn lemma_bit_set(w: u64, o: u64, p: u64)
    requires
        o < 64,
        p < 64,
    ensures
        bit(w | (1u64 << o), p) == (p == o || bit(w, p)),
{
    assert((((w | (1u64 << o)) >> p) & 1u64 == 1u64) == (p == o || ((w >> p) & 1u64 == 1u64)))
        by (bit_vector)
        requires
            o < 64,
            p < 64,
    ;
}

/// Clearing bit `o` of a word clears that bit and leaves the others.
pub proof fn lemma_bit_clear(w: u64, o: u64, p: u64)
    requires
        o < 64,
        p < 64,
    ensures
        bit(w & !(1u64 << o), p) == (p != o && bit(w, p)),
{
    assert((((w & !(1u64 << o)) >> p) & 1u64 == 1u64) == (p != o && ((w >> p) & 1u64 == 1u64)))
        by (bit_vector)
        requires
            o < 64,
            p < 64,
    ;
}

/// A bit of the XOR of two words is set if it is set in one of them only.
pub proof fn lemma_bit_xor(a: u64, b: u64, o: u64)
    requires
        o < 64,
    ensures
        bit(a ^ b, o) == (bit(a, o) != bit(b, o)),
{
    assert((((a ^ b) >> o) & 1u64 == 1u64) == (((a >> o) & 1u64 == 1u64) != ((b >> o) & 1u64
        == 1u64))) by (bit_vector)
        requires
            o < 64,
    ;
}

/// A bit of the AND of two words is set if it is set in both.
pub proof fn lemma_bit_and(a: u64, b: u64, o: u64)
    requires
        o < 64,
    ensures
        bit(a & b, o) == (bit(a, o) && bit(b, o)),
{
    assert((((a & b) >> o) & 1u64 == 1u64) == (((a >> o) & 1u64 == 1u64) && ((b >> o) & 1u64
        == 1u64))) by (bit_vector)
        requires
            o < 64,
    ;
}

/// A bit of the OR of two words is set if it is set in one of them.
pub proof fn lemma_bit_or(a: u64, b: u64, o: u64)
    requires
        o < 64,
    ensures
        bit(a | b, o) == (bit(a, o) || bit(b, o)),
{
    assert((((a | b) >> o) & 1u64 == 1u64) == (((a >> o) & 1u64 == 1u64) || ((b >> o) & 1u64
        == 1u64))) by (bit_vector)
        requires
            o < 64,
    ;
}

/// What `trailing_zeros` says about the bits of a word: the bits below it are
/// clear, and the bit at it is set unless the word is zero.
pub proof fn lemma_trailing_zeros(w: u64)
    ensures
        w == 0 <==> w.trailing_zeros() == 64,
        w.trailing_zeros() <= 64,
        w != 0 ==> bit(w, w.trailing_zeros() as u64),
        forall|o: u64| o < w.trailing_zeros() ==> !#[trigger] bit(w, o),
        w == 0 ==> forall|o: u64| o < 64 ==> !#[trigger] bit(w, o),
{
    vstd::std_specs::bits::axiom_u64_trailing_zeros(w);
    let t = w.trailing_zeros();
    assert forall|o: u64| o < t implies !#[trigger] bit(w, o) by {
        assert((w >> o) & 1u64 == 0u64);
    }
    if w == 0 {
        assert forall|o: u64| o < 64 implies !#[trigger] bit(w, o) by {
            lemma_bit_zero(o);
        }
    }
}

} // verus!
