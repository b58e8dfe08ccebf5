//! Bit-level facts about machine words used by the frame bitmap.
use vstd::prelude::*;

verus! {

/// Whether bit `b` of word `w` is set.
pub open spec fn word_bit(w: usize, b: int) -> bool {
    (w >> (b as usize)) & 1usize == 1usize
}

/// The word with only bit `b` set, tested against `w`, is non-zero exactly
/// when bit `b` of `w` is set.
pub proof fn lemma_test_bit(w: usize, b: usize)
    requires
        b < usize::BITS,
    ensures
        (w & (1usize << b) != 0) == word_bit(w, b as int),
{
    assert((w & (1usize << b) != 0) == ((w >> b) & 1usize == 1usize)) by (bit_vector)
        requires
            b < usize::BITS,
    ;
}

/// Setting bit `b` sets it and leaves every other bit alone.
pub proof fn lemma_set_bit(w: usize, b: usize, c: usize)
    requires
        b < usize::BITS,
        c < usize::BITS,
    ensures
        word_bit(w | (1usize << b), b as int),
        c != b ==> word_bit(w | (1usize << b), c as int) == word_bit(w, c as int),
{
    assert(((w | (1usize << b)) >> b) & 1usize == 1usize) by (bit_vector)
        requires
            b < usize::BITS,
    ;
    assert(c != b ==> ((w | (1usize << b)) >> c) & 1usize == (w >> c) & 1usize) by (bit_vector)
        requires
            b < usize::BITS,
            c < usize::BITS,
    ;
}

/// Clearing bit `b` clears it and leaves every other bit alone.
pub proof fn lemma_clear_bit(w: usize, b: usize, c: usize)
    requires
        b < usize::BITS,
        c < usize::BITS,
    ensures
        !word_bit(w & !(1usize << b), b as int),
        c != b ==> word_bit(w & !(1usize << b), c as int) == word_bit(w, c as int),
{
    assert(((w & !(1usize << b)) >> b) & 1usize == 0usize) by (bit_vector)
        requires
            b < usize::BITS,
    ;
    assert(c != b ==> ((w & !(1usize << b)) >> c) & 1usize == (w >> c) & 1usize) by (bit_vector)
        requires
            b < usize::BITS,
            c < usize::BITS,
    ;
}

/// A zero word has no bit set.
pub proof fn lemma_zero_word(c: usize)
    requires
        c < usize::BITS,
    ensures
        !word_bit(0usize, c as int),
{
    assert((0usize >> c) & 1usize == 0usize) by (bit_vector);
}

/// Bit `c` of the complement of `w`, read through a widening to `u64`, is the
/// negation of bit `c` of `w`; a word whose complement is zero has every bit set.
pub proof fn lemma_complement_bit(w: usize, c: usize)
    requires
        c < usize::BITS,
    ensures
        (((!w) as u64 >> (c as u64)) & 1u64 == 1u64) == !word_bit(w, c as int),
        !w == 0usize ==> word_bit(w, c as int),
        (!w) as u64 != 0u64 <==> !w != 0usize,
{
    assert((((!w) as u64 >> (c as u64)) & 1u64 == 1u64) == !((w >> c) & 1usize == 1usize))
        by (bit_vector)
        requires
            c < usize::BITS,
    ;
    assert(!w == 0usize ==> (w >> c) & 1usize == 1usize) by (bit_vector)
        requires
            c < usize::BITS,
    ;
    assert(((!w) as u64 != 0u64) == (!w != 0usize)) by (bit_vector);
}

/// The lowest set bit of a non-zero `u64` whose value came from a `usize`
/// lies below `usize::BITS`.
pub proof fn lemma_low_bit_in_word(x: usize, tz: u64)
    requires
        x != 0usize,
        tz < 64,
        ((x as u64) >> tz) & 1u64 == 1u64,
    ensures
        tz < usize::BITS,
{
    assert(tz < usize::BITS) by (bit_vector)
        requires
            x != 0usize,
            tz < 64,
            ((x as u64) >> tz) & 1u64 == 1u64,
    ;
}

} // verus!
