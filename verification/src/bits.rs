//! Single bits of a machine word: one bit per shard.

use vstd::prelude::*;
use vstd::std_specs::bits::*;

verus! {

/// Whether bit `i` of `word` is set. No bit at or above the word's width is.
pub open spec fn has_bit(word: usize, i: int) -> bool {
    &&& 0 <= i < usize::BITS
    &&& (word >> (i as usize)) & 1 == 1
}

/// Whether every set bit of `word` lies below `limit`.
pub open spec fn bits_below(word: usize, limit: int) -> bool {
    forall|i: int| #[trigger] has_bit(word, i) ==> i < limit
}

/// Whether `i` is the position of the lowest set bit of `word`.
pub open spec fn is_lowest_bit(word: usize, i: int) -> bool {
    &&& has_bit(word, i)
    &&& forall|j: int| #[trigger] has_bit(word, j) ==> i <= j
}

/// The position of the lowest set bit of a nonzero `word`.
pub open spec fn lowest(word: usize) -> int {
    choose|i: int| is_lowest_bit(word, i)
}

/// `word` without its lowest set bit.
pub open spec fn without_lowest(word: usize) -> usize {
    word & ((word - 1) as usize)
}

/// `word` with bit `i` set.
pub open spec fn with_bit(word: usize, i: int) -> usize {
    word | (1usize << (i as usize))
}

/// `word` with bit `i` cleared.
pub open spec fn without_bit(word: usize, i: int) -> usize {
    word & !(1usize << (i as usize))
}

/// How far `i` lies from `start`, where positions that agree in their higher digits are close.
pub open spec fn distance(start: int, i: int) -> usize {
    (i as usize) ^ (start as usize)
}

/// Whether `i` is the set bit of `word` that lies nearest to `start`.
pub open spec fn is_nearest_bit(word: usize, start: int, i: int) -> bool {
    &&& has_bit(word, i)
    &&& forall|j: int| #[trigger] has_bit(word, j) ==> distance(start, i) <= distance(start, j)
}

/// The position of the set bit of a nonzero `word` that lies nearest to `start`.
pub open spec fn nearest(word: usize, start: int) -> int {
    choose|i: int| is_nearest_bit(word, start, i)
}

/// A word with nothing but bit `index` set.
pub fn shard_bit(index: usize) -> (bit: usize)
    requires
        index < usize::BITS,
    ensures
        bit == 1usize << index,
        forall|i: int| #[trigger] has_bit(bit, i) <==> i == index,
{
    let bit: usize = 1usize << index;
    proof {
        assert forall|i: int| #[trigger] has_bit(bit, i) <==> i == index by {
            if 0 <= i < usize::BITS {
                let k = i as usize;
                assert(((1usize << index) >> k) & 1 == 1 <==> k == index) by (bit_vector)
                    requires
                        index < usize::BITS,
                        k < usize::BITS,
                ;
            }
        }
    }
    bit
}

/// Whether bit `index` of `word` is set.
pub fn is_set(word: usize, index: usize) -> (found: bool)
    requires
        index < usize::BITS,
    ensures
        found == has_bit(word, index as int),
{
    let bit = shard_bit(index);
    proof {
        assert((word & (1usize << index)) == 0 <==> (word >> index) & 1 != 1) by (bit_vector)
            requires
                index < usize::BITS,
        ;
    }
    word & bit != 0
}

/// Setting a bit changes that bit alone.
pub proof fn lemma_with_bit(word: usize, i: int)
    requires
        0 <= i < usize::BITS,
    ensures
        forall|j: int| #[trigger] has_bit(with_bit(word, i), j) <==> has_bit(word, j) || j == i,
{
    let n = i as usize;
    assert forall|j: int| #[trigger] has_bit(with_bit(word, i), j) <==> has_bit(word, j) || j
        == i by {
        if 0 <= j < usize::BITS {
            let k = j as usize;
            assert(((word | (1usize << n)) >> k) & 1 == 1 <==> (word >> k) & 1 == 1 || k == n)
                by (bit_vector)
                requires
                    n < usize::BITS,
                    k < usize::BITS,
            ;
        }
    }
}

/// Clearing a bit changes that bit alone.
pub proof fn lemma_without_bit(word: usize, i: int)
    requires
        0 <= i < usize::BITS,
    ensures
        forall|j: int| #[trigger] has_bit(without_bit(word, i), j) <==> has_bit(word, j) && j != i,
{
    let n = i as usize;
    assert forall|j: int| #[trigger] has_bit(without_bit(word, i), j) <==> has_bit(word, j) && j
        != i by {
        if 0 <= j < usize::BITS {
            let k = j as usize;
            assert(((word & !(1usize << n)) >> k) & 1 == 1 <==> (word >> k) & 1 == 1 && k != n)
                by (bit_vector)
                requires
                    n < usize::BITS,
                    k < usize::BITS,
            ;
        }
    }
}

/// The word with no bit set.
pub proof fn lemma_zero_has_no_bit()
    ensures
        forall|i: int| !#[trigger] has_bit(0, i),
{
    assert forall|i: int| !#[trigger] has_bit(0, i) by {
        let k = i as usize;
        assert((0usize >> k) & 1 == 0) by (bit_vector);
    }
}

/// Only zero has no bit set.
pub proof fn lemma_no_bit_is_zero(word: usize)
    requires
        forall|i: int| !#[trigger] has_bit(word, i),
    ensures
        word == 0,
{
    if word != 0 {
        lemma_lowest(word);
        assert(has_bit(word, lowest(word)));
    }
}

/// A nonzero word has a lowest set bit.
pub proof fn lemma_lowest(word: usize)
    requires
        word != 0,
    ensures
        is_lowest_bit(word, lowest(word)),
{
    let i = lowest_bit_witness(word);
    assert(is_lowest_bit(word, i));
}

proof fn lowest_bit_witness(word: usize) -> (i: int)
    requires
        word != 0,
    ensures
        is_lowest_bit(word, i),
        i == (word as u64).trailing_zeros(),
{
    let wide = word as u64;
    axiom_u64_trailing_zeros(wide);
    let at = u64_trailing_zeros(wide);
    let k = at as u64;
    assert(k < usize::BITS) by {
        assert(forall|b: u64| usize::BITS <= b < 64 ==> #[trigger] ((word as u64) >> b) & 1 == 0)
            by (bit_vector);
    }
    let narrow = k as usize;
    assert((wide >> k) & 1 == (word >> narrow) & 1);
    assert forall|j: int| #[trigger] has_bit(word, j) implies k <= j by {
        let n = j as usize;
        let w = n as u64;
        assert((wide >> w) & 1 == (word >> n) & 1);
    }
    k as int
}

/// Finds the position of the lowest set bit.
pub fn lowest_bit(word: usize) -> (index: usize)
    requires
        word != 0,
    ensures
        index == lowest(word),
        is_lowest_bit(word, index as int),
{
    proof {
        let i = lowest_bit_witness(word);
        assert(is_lowest_bit(word, i));
    }
    (word as u64).trailing_zeros() as usize
}

/// Clearing the lowest set bit changes that bit alone.
pub proof fn lemma_without_lowest(word: usize)
    requires
        word != 0,
    ensures
        without_lowest(word) < word,
        forall|i: int|
            #[trigger] has_bit(without_lowest(word), i) <==> has_bit(word, i) && i != lowest(word),
{
    let rest = without_lowest(word);
    assert(rest < word) by (bit_vector)
        requires
            word != 0,
            rest == word & ((word - 1) as usize),
    ;
    lemma_lowest(word);
    let low = lowest(word);
    let l = low as usize;
    assert forall|j: usize| j < l implies #[trigger] (word >> j) & 1 == 0 by {
        assert(!has_bit(word, j as int));
        assert((word >> j) & 1 == 0 || (word >> j) & 1 == 1) by (bit_vector);
    }
    lemma_low_bits_clear(word, l);
    assert forall|i: int| #[trigger] has_bit(rest, i) <==> has_bit(word, i) && i != low by {
        if 0 <= i < usize::BITS {
            let k = i as usize;
            assert((rest >> k) & 1 == 1 <==> ((word >> k) & 1 == 1 && k != l)) by (bit_vector)
                requires
                    k < usize::BITS,
                    l < usize::BITS,
                    (word >> l) & 1 == 1,
                    (word << ((usize::BITS - l) as usize)) == 0 || l == 0,
                    rest == word & ((word - 1) as usize),
                    word != 0,
            ;
        }
    }
}

/// Clears the lowest set bit.
pub fn clear_lowest_bit(word: usize) -> (rest: usize)
    requires
        word != 0,
    ensures
        rest == without_lowest(word),
        rest < word,
        forall|i: int| #[trigger] has_bit(rest, i) <==> has_bit(word, i) && i != lowest(word),
{
    proof {
        lemma_without_lowest(word);
    }
    word & (word - 1)
}

/// Different positions lie at different distances.
pub proof fn lemma_distance_tells_apart(start: int, i: int, j: int)
    requires
        0 <= i < usize::BITS,
        0 <= j < usize::BITS,
        i != j,
    ensures
        distance(start, i) != distance(start, j),
{
    let s = start as usize;
    let a = i as usize;
    let b = j as usize;
    assert(a != b ==> a ^ s != b ^ s) by (bit_vector);
}

/// Being at distance `i` is mutual.
pub proof fn lemma_distance_is_mutual(start: usize, i: usize)
    ensures
        start ^ (start ^ i) == i,
        start ^ i == i ^ start,
{
    assert(start ^ (start ^ i) == i) by (bit_vector);
    assert(start ^ i == i ^ start) by (bit_vector);
}

/// Nothing but a position itself lies at distance zero.
pub proof fn lemma_distance_zero(start: int, i: int)
    requires
        0 <= start < usize::BITS,
        0 <= i < usize::BITS,
    ensures
        distance(start, i) == 0 <==> i == start,
{
    let s = start as usize;
    assert(s ^ s == 0) by (bit_vector);
    if i != start {
        lemma_distance_tells_apart(start, i, start);
    }
}

/// No two set bits are nearest.
proof fn lemma_nearest_is_one(word: usize, start: int, i: int, j: int)
    requires
        is_nearest_bit(word, start, i),
        is_nearest_bit(word, start, j),
    ensures
        i == j,
{
    if i != j {
        lemma_distance_tells_apart(start, i, j);
    }
}

/// A nonzero word has a nearest set bit.
pub proof fn lemma_nearest(word: usize, start: int)
    requires
        word != 0,
    ensures
        is_nearest_bit(word, start, nearest(word, start)),
    decreases word,
{
    let low = lowest(word);
    let rest = without_lowest(word);
    lemma_lowest(word);
    lemma_without_lowest(word);
    if rest == 0 {
        lemma_zero_has_no_bit();
        assert forall|j: int| #[trigger] has_bit(word, j) implies j == low by {
            assert(!has_bit(rest, j));
        }
        assert(is_nearest_bit(word, start, low));
    } else {
        lemma_nearest(rest, start);
        let other = nearest(rest, start);
        assert forall|j: int| #[trigger] has_bit(word, j) implies j == low || distance(start, other)
            <= distance(start, j) by {
            assert(j != low ==> has_bit(rest, j));
        }
        if distance(start, low) <= distance(start, other) {
            assert(is_nearest_bit(word, start, low));
        } else {
            assert(has_bit(rest, other));
            assert(is_nearest_bit(word, start, other));
        }
    }
}

/// Clearing a set bit makes the word smaller.
pub proof fn lemma_without_bit_is_less(word: usize, i: int)
    requires
        has_bit(word, i),
    ensures
        without_bit(word, i) < word,
{
    let n = i as usize;
    assert((word & !(1usize << n)) < word) by (bit_vector)
        requires
            n < usize::BITS,
            (word >> n) & 1 == 1,
    ;
}

/// Finds the set bit that lies nearest to `start`.
pub fn nearest_bit(word: usize, start: usize) -> (index: usize)
    requires
        word != 0,
    ensures
        index == nearest(word, start as int),
        is_nearest_bit(word, start as int, index as int),
{
    let mut best: usize = lowest_bit(word);
    let mut rest: usize = clear_lowest_bit(word);
    proof {
        assert forall|j: int| #[trigger] has_bit(word, j) implies has_bit(rest, j) || distance(
            start as int,
            best as int,
        ) <= distance(start as int, j) by {
            assert(has_bit(rest, j) <==> j != best);
        }
    }
    while rest != 0
        invariant
            has_bit(word, best as int),
            forall|j: int| #[trigger] has_bit(rest, j) ==> has_bit(word, j),
            forall|j: int| #[trigger]
                has_bit(word, j) ==> has_bit(rest, j) || distance(start as int, best as int)
                    <= distance(start as int, j),
        decreases rest,
    {
        let index: usize = lowest_bit(rest);
        let ghost before = rest;
        let ghost previous = best;
        rest = clear_lowest_bit(rest);
        if index ^ start < best ^ start {
            best = index;
        }
        proof {
            assert(has_bit(before, index as int));
            assert forall|j: int| #[trigger] has_bit(rest, j) implies has_bit(word, j) by {
                assert(has_bit(before, j));
            }
            assert forall|j: int| #[trigger] has_bit(word, j) implies has_bit(rest, j) || distance(
                start as int,
                best as int,
            ) <= distance(start as int, j) by {
                assert(has_bit(rest, j) <==> has_bit(before, j) && j != index);
            }
        }
    }
    proof {
        lemma_zero_has_no_bit();
        lemma_nearest(word, start as int);
        assert(is_nearest_bit(word, start as int, best as int));
        lemma_nearest_is_one(word, start as int, best as int, nearest(word, start as int));
    }
    best
}

proof fn lemma_low_bits_clear(word: usize, l: usize)
    requires
        l < usize::BITS,
        forall|j: usize| j < l ==> #[trigger] (word >> j) & 1 == 0,
    ensures
        (word << ((usize::BITS - l) as usize)) == 0 || l == 0,
    decreases l,
{
    if l > 0 {
        let m = (l - 1) as usize;
        lemma_low_bits_clear(word, m);
        assert((word >> m) & 1 == 0);
        assert((word << ((usize::BITS - l) as usize)) == 0) by (bit_vector)
            requires
                0 < l < usize::BITS,
                m == (l - 1) as usize,
                (word >> m) & 1 == 0,
                (word << ((usize::BITS - m) as usize)) == 0 || m == 0,
        ;
    }
}

} // verus!
