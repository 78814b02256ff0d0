//! Packed positions.
//!
//! A queue's head and tail are single words that hold two numbers: an index in
//! the low bits and a lap in the high bits. The stride that parts them is a
//! power of two, so the index is one AND away and a step to the next lap is an
//! addition that may wrap round the word.
use vstd::arithmetic::div_mod::{
    lemma_fundamental_div_mod,
    lemma_fundamental_div_mod_converse,
    lemma_mod_multiples_basic,
    lemma_mod_pos_bound,
};
use vstd::arithmetic::power2::{
    lemma2_to64,
    lemma_pow2_adds,
    lemma_pow2_pos,
    lemma_pow2_unfold,
    pow2,
};
use vstd::bits::{lemma_usize_low_bits_mask_is_mod, low_bits_mask};
use vstd::layout::unsigned_int_max_values;
use vstd::prelude::*;

verus! {

/// The number of values of a word.
pub open spec fn word_count() -> int {
    usize::MAX + 1
}

/// A stride is a power of two that leaves room for at least two laps in a
/// word.
pub open spec fn is_stride(l: int) -> bool {
    exists|n: nat| n < usize::BITS && l == #[trigger] pow2(n)
}

/// `x` is a whole number of laps.
pub open spec fn aligned(x: int, l: int) -> bool {
    x % l == 0
}

/// The index that `word` holds.
pub open spec fn word_index(word: usize, l: usize) -> int {
    (word as int) % (l as int)
}

/// The lap that `word` holds, as the word with its index cleared.
pub open spec fn word_lap(word: usize, l: usize) -> int {
    word - (word as int) % (l as int)
}

/// The lap after `lap`; the last lap of the word is followed by lap zero.
pub open spec fn next_lap(lap: int, l: int) -> int {
    if lap + l > usize::MAX {
        lap + l - word_count()
    } else {
        lap + l
    }
}

/// The lap before `lap`; lap zero is preceded by the last lap of the word.
pub open spec fn prev_lap(lap: int, l: int) -> int {
    if lap - l < 0 {
        lap - l + word_count()
    } else {
        lap - l
    }
}

/// The position after `word` in a ring of `cap` slots: the next index in the
/// same lap, or index zero of the next lap.
pub open spec fn advance(word: usize, cap: usize, l: usize) -> int {
    if word_index(word, l) + 1 < cap {
        word + 1
    } else {
        next_lap(word_lap(word, l), l as int)
    }
}

/// The smallest power of two above `cap`.
pub open spec fn is_one_lap_for(l: int, cap: int) -> bool {
    is_stride(l) && cap < l <= 2 * cap
}

/// A stride is positive, fits twice in a word and divides the word count.
pub proof fn lemma_stride(l: int)
    requires
        is_stride(l),
    ensures
        1 <= l,
        2 * l <= word_count(),
        aligned(word_count(), l),
{
    let n = choose|n: nat| n < usize::BITS && l == #[trigger] pow2(n);
    let m = (usize::BITS - n) as nat;
    unsigned_int_max_values();
    lemma_pow2_pos(n);
    lemma_pow2_adds(m, n);
    lemma_pow2_unfold(m);
    lemma_pow2_pos((m - 1) as nat);
    assert(word_count() == pow2(m) * l);
    assert(2 * l <= word_count()) by (nonlinear_arith)
        requires
            word_count() == pow2(m) * l,
            pow2(m) >= 2,
            l >= 1,
    ;
    lemma_mod_multiples_basic(pow2(m) as int, l);
}

/// A word is its lap plus its index; the index is below the stride and the
/// lap is aligned.
pub proof fn lemma_split(word: usize, l: usize)
    requires
        is_stride(l as int),
    ensures
        0 <= word_index(word, l) < l,
        aligned(word_lap(word, l), l as int),
        word_lap(word, l) + word_index(word, l) == word,
        0 <= word_lap(word, l) <= word_count() - l,
{
    lemma_stride(l as int);
    let w = word as int;
    let d = l as int;
    lemma_mod_pos_bound(w, d);
    lemma_fundamental_div_mod(w, d);
    assert(word_lap(word, l) == (w / d) * d) by (nonlinear_arith)
        requires
            w == d * (w / d) + (w % d),
            word_lap(word, l) == w - w % d,
    ;
    lemma_mod_multiples_basic(w / d, d);
    lemma_aligned_below(word_lap(word, l), word_count(), d);
}

/// An aligned number below an aligned bound is at least one stride below it.
pub proof fn lemma_aligned_below(x: int, bound: int, l: int)
    requires
        l > 0,
        aligned(x, l),
        aligned(bound, l),
        0 <= x < bound,
    ensures
        x <= bound - l,
{
    lemma_fundamental_div_mod(x, l);
    lemma_fundamental_div_mod(bound, l);
    let q = x / l;
    let b = bound / l;
    assert(q < b) by (nonlinear_arith)
        requires
            l * q < l * b,
            l > 0,
    ;
    assert(l * q <= l * b - l) by (nonlinear_arith)
        requires
            q + 1 <= b,
            l > 0,
    ;
}

/// An aligned lap and an index below the stride make a word that holds
/// exactly those two.
pub proof fn lemma_join(lap: int, i: int, l: usize)
    requires
        is_stride(l as int),
        aligned(lap, l as int),
        0 <= lap <= usize::MAX,
        0 <= i < l,
    ensures
        lap + i <= usize::MAX,
        word_index((lap + i) as usize, l) == i,
        word_lap((lap + i) as usize, l) == lap,
{
    let d = l as int;
    lemma_stride(d);
    lemma_aligned_below(lap, word_count(), d);
    lemma_fundamental_div_mod(lap, d);
    assert(lap + i == (lap / d) * d + i) by (nonlinear_arith)
        requires
            lap == d * (lap / d) + lap % d,
            lap % d == 0,
    ;
    lemma_fundamental_div_mod_converse(lap + i, d, lap / d, i);
}

/// The next lap is aligned, is another lap, and is zero after the last one.
pub proof fn lemma_next_lap(lap: int, l: int)
    requires
        is_stride(l),
        aligned(lap, l),
        0 <= lap <= usize::MAX,
    ensures
        aligned(next_lap(lap, l), l),
        0 <= next_lap(lap, l) <= word_count() - l,
        next_lap(lap, l) != lap,
        next_lap(lap, l) == (if lap == word_count() - l {
            0
        } else {
            lap + l
        }),
        prev_lap(next_lap(lap, l), l) == lap,
{
    lemma_stride(l);
    lemma_aligned_below(lap, word_count(), l);
    if lap != word_count() - l {
        lemma_fundamental_div_mod(lap, l);
        assert(lap + l == (lap / l + 1) * l) by (nonlinear_arith)
            requires
                lap == l * (lap / l) + lap % l,
                lap % l == 0,
        ;
        lemma_mod_multiples_basic(lap / l + 1, l);
        lemma_aligned_below(lap + l, word_count(), l);
    } else {
        lemma_mod_multiples_basic(0, l);
    }
}

/// The lap before is aligned, is another lap, and is followed by `lap`.
pub proof fn lemma_prev_lap(lap: int, l: int)
    requires
        is_stride(l),
        aligned(lap, l),
        0 <= lap <= usize::MAX,
    ensures
        aligned(prev_lap(lap, l), l),
        0 <= prev_lap(lap, l) <= word_count() - l,
        prev_lap(lap, l) != lap,
        next_lap(prev_lap(lap, l), l) == lap,
{
    lemma_stride(l);
    lemma_aligned_below(lap, word_count(), l);
    if lap == 0 {
        lemma_fundamental_div_mod(word_count(), l);
        let q = word_count() / l;
        assert(word_count() - l == (q - 1) * l) by (nonlinear_arith)
            requires
                word_count() == l * q,
        ;
        lemma_mod_multiples_basic(q - 1, l);
    } else {
        lemma_mod_multiples_basic(0, l);
        lemma_aligned_below(0, lap, l);
        lemma_fundamental_div_mod(lap, l);
        assert(lap - l == (lap / l - 1) * l) by (nonlinear_arith)
            requires
                lap == l * (lap / l) + lap % l,
                lap % l == 0,
        ;
        lemma_mod_multiples_basic(lap / l - 1, l);
    }
}

/// The smallest power of two above `cap`.
pub fn one_lap_for(cap: usize) -> (l: usize)
    requires
        1 <= cap <= usize::MAX / 2,
    ensures
        is_one_lap_for(l as int, cap as int),
{
    let mut l: usize = 1;
    let ghost mut n: nat = 0;
    proof {
        lemma2_to64();
    }
    while l <= cap
        invariant
            l == pow2(n),
            n < usize::BITS,
            1 <= l <= 2 * cap,
            cap <= usize::MAX / 2,
        decreases 2 * cap - l,
    {
        proof {
            lemma_pow2_unfold(n + 1);
            unsigned_int_max_values();
            if n + 1 >= usize::BITS {
                lemma_pow2_unfold(usize::BITS as nat);
                assert(false);
            }
            n = n + 1;
        }
        l = l * 2;
    }
    l
}

/// The index that `word` holds: one AND with the stride's mask.
pub fn index_of(word: usize, one_lap: usize) -> (i: usize)
    requires
        is_stride(one_lap as int),
    ensures
        i == word_index(word, one_lap),
{
    proof {
        lemma_mask(word, one_lap);
    }
    word & (one_lap - 1)
}

/// The lap that `word` holds: the word with its index bits cleared.
pub fn lap_of(word: usize, one_lap: usize) -> (lap: usize)
    requires
        is_stride(one_lap as int),
    ensures
        lap == word_lap(word, one_lap),
{
    proof {
        lemma_mask(word, one_lap);
    }
    word & !(one_lap - 1)
}

/// The AND with a stride's mask is the remainder by the stride, and the AND
/// with the mask's complement is the rest.
proof fn lemma_mask(word: usize, l: usize)
    requires
        is_stride(l as int),
    ensures
        l >= 1,
        word & ((l - 1) as usize) == word_index(word, l),
        word & !((l - 1) as usize) == word_lap(word, l),
{
    let n = choose|n: nat| n < usize::BITS && l as int == #[trigger] pow2(n);
    lemma_pow2_pos(n);
    lemma_usize_low_bits_mask_is_mod(word, n);
    let m = (l - 1) as usize;
    assert(low_bits_mask(n) == m);
    assert(word & !m == word - (word & m)) by (bit_vector);
}

} // verus!
