//! How much two sketches of the same shape agree, as an exact fraction.
use crate::sketch::bit_at;
use vstd::prelude::*;

verus! {

/// A fraction `num / den` of integers, with `den > 0`.
pub struct Ratio {
    pub num: int,
    pub den: int,
}

impl Ratio {
    /// The fraction is 1.
    pub open spec fn is_one(self) -> bool {
        self.num == self.den && self.den > 0
    }
}

/// A similarity as the fraction `num / den`, with `den > 0`.
#[derive(Clone, Copy, Debug, PartialEq, Eq)]
pub struct Similarity {
    pub num: i128,
    pub den: i128,
}

impl View for Similarity {
    type V = Ratio;

    open spec fn view(&self) -> Ratio {
        (Ratio { num: self.num as int, den: self.den as int })
    }
}

/// `count` out of `total`. Two sketches without a slot agree in all of
/// them: of `0` the fraction is 1.
pub open spec fn fraction(count: int, total: int) -> Ratio {
    if total == 0 {
        (Ratio { num: 1, den: 1 })
    } else {
        (Ratio { num: count, den: total })
    }
}

/// `2 f - 1` for the fraction `f` of `agree` out of `total`, which is 1 for
/// full agreement, 0 for the agreement of unrelated bits and -1 for none. Of
/// `0` the fraction is 1.
pub open spec fn rescaled_fraction(agree: int, total: int) -> Ratio {
    if total == 0 {
        (Ratio { num: 1, den: 1 })
    } else {
        (Ratio { num: 2 * agree - total, den: total })
    }
}

/// The matches that a merge of `a` from `i` and `b` from `j` finds in
/// `steps` steps. A step compares the two values in front: equal values are
/// a match and both are passed; otherwise the smaller one is passed.
pub open spec fn merge_matches(a: Seq<int>, b: Seq<int>, i: int, j: int, steps: nat) -> nat
    decreases steps,
{
    if steps == 0 {
        0
    } else if a[i] == b[j] {
        1 + merge_matches(a, b, i + 1, j + 1, (steps - 1) as nat)
    } else if a[i] < b[j] {
        merge_matches(a, b, i + 1, j, (steps - 1) as nat)
    } else {
        merge_matches(a, b, i, j + 1, (steps - 1) as nat)
    }
}

/// The number of positions below `n` at which `a` and `b` hold the same
/// value.
pub open spec fn count_equal(a: Seq<int>, b: Seq<int>, n: nat) -> nat
    decreases n,
{
    if n == 0 {
        0
    } else {
        count_equal(a, b, (n - 1) as nat) + if a[n - 1] == b[n - 1] {
            1nat
        } else {
            0nat
        }
    }
}

/// The number of bit positions below `n` at which `x` and `y` agree.
pub open spec fn agreeing_bits(x: u64, y: u64, n: nat) -> nat
    decreases n,
{
    if n == 0 {
        0
    } else {
        agreeing_bits(x, y, (n - 1) as nat) + if bit_at(x, n - 1) == bit_at(y, n - 1) {
            1nat
        } else {
            0nat
        }
    }
}

/// The number of bit positions at which the first `words` words of `a` and
/// `b` agree.
pub open spec fn count_agreeing_bits(a: Seq<int>, b: Seq<int>, words: nat) -> nat
    decreases words,
{
    if words == 0 {
        0
    } else {
        count_agreeing_bits(a, b, (words - 1) as nat) + agreeing_bits(
            a[words - 1] as u64,
            b[words - 1] as u64,
            64,
        )
    }
}

/// The number of bits below `n` that are 0 in `x`.
pub open spec fn zero_bits(x: u64, n: nat) -> nat
    decreases n,
{
    if n == 0 {
        0
    } else {
        zero_bits(x, (n - 1) as nat) + if bit_at(x, n - 1) {
            0nat
        } else {
            1nat
        }
    }
}

/// The similarity of two bottom sketches with the entries `a` and `b`: the
/// matches of a merge of as many steps as a sketch has entries, out of that
/// number.
pub open spec fn merge_similarity(a: Seq<int>, b: Seq<int>) -> Ratio {
    fraction(merge_matches(a, b, 0, 0, a.len()) as int, a.len() as int)
}

/// The similarity of two bin sketches with the entries `a` and `b`: the
/// buckets with the same entry, out of all buckets.
pub open spec fn positional_similarity(a: Seq<int>, b: Seq<int>) -> Ratio {
    fraction(count_equal(a, b, a.len()) as int, a.len() as int)
}

/// The similarity of two one-bit bin sketches with the words `a` and `b`:
/// `2 f - 1` for the fraction `f` of agreeing bits.
pub open spec fn bitwise_similarity(a: Seq<int>, b: Seq<int>) -> Ratio {
    rescaled_fraction(count_agreeing_bits(a, b, a.len()) as int, 64 * (a.len() as int))
}

/// A merge finds the same matches whichever sketch is taken first.
pub proof fn lemma_merge_symmetric(a: Seq<int>, b: Seq<int>, i: int, j: int, steps: nat)
    ensures
        merge_matches(a, b, i, j, steps) == merge_matches(b, a, j, i, steps),
    decreases steps,
{
    if steps > 0 {
        lemma_merge_symmetric(a, b, i + 1, j + 1, (steps - 1) as nat);
        lemma_merge_symmetric(a, b, i + 1, j, (steps - 1) as nat);
        lemma_merge_symmetric(a, b, i, j + 1, (steps - 1) as nat);
    }
}

/// A merge of a sketch with itself matches at every step.
pub proof fn lemma_merge_self(a: Seq<int>, i: int, steps: nat)
    ensures
        merge_matches(a, a, i, i, steps) == steps,
    decreases steps,
{
    if steps > 0 {
        lemma_merge_self(a, i + 1, (steps - 1) as nat);
    }
}

/// A merge finds at most one match per step.
pub proof fn lemma_merge_bounded(a: Seq<int>, b: Seq<int>, i: int, j: int, steps: nat)
    ensures
        merge_matches(a, b, i, j, steps) <= steps,
    decreases steps,
{
    if steps > 0 {
        lemma_merge_bounded(a, b, i + 1, j + 1, (steps - 1) as nat);
        lemma_merge_bounded(a, b, i + 1, j, (steps - 1) as nat);
        lemma_merge_bounded(a, b, i, j + 1, (steps - 1) as nat);
    }
}

/// As many positions agree between `a` and `b` as between `b` and `a`, and
/// no more than there are.
pub proof fn lemma_count_equal_symmetric(a: Seq<int>, b: Seq<int>, n: nat)
    ensures
        count_equal(a, b, n) == count_equal(b, a, n),
        count_equal(a, b, n) <= n,
    decreases n,
{
    if n > 0 {
        lemma_count_equal_symmetric(a, b, (n - 1) as nat);
    }
}

/// A sketch agrees with itself at every position.
pub proof fn lemma_count_equal_self(a: Seq<int>, n: nat)
    ensures
        count_equal(a, a, n) == n,
    decreases n,
{
    if n > 0 {
        lemma_count_equal_self(a, (n - 1) as nat);
    }
}

/// As many bits agree between `x` and `y` as between `y` and `x`, and no
/// more than there are; a word agrees with itself in every bit.
pub proof fn lemma_agreeing_bits(x: u64, y: u64, n: nat)
    ensures
        agreeing_bits(x, y, n) == agreeing_bits(y, x, n),
        agreeing_bits(x, y, n) <= n,
        agreeing_bits(x, x, n) == n,
    decreases n,
{
    if n > 0 {
        lemma_agreeing_bits(x, y, (n - 1) as nat);
    }
}

/// The total over words is symmetric and bounded as the count per word is,
/// and two equal sketches agree in every bit.
pub proof fn lemma_count_agreeing_bits(a: Seq<int>, b: Seq<int>, words: nat)
    ensures
        count_agreeing_bits(a, b, words) == count_agreeing_bits(b, a, words),
        count_agreeing_bits(a, b, words) <= 64 * words,
        count_agreeing_bits(a, a, words) == 64 * words,
    decreases words,
{
    if words > 0 {
        lemma_count_agreeing_bits(a, b, (words - 1) as nat);
        lemma_agreeing_bits(a[words - 1] as u64, b[words - 1] as u64, 64);
        lemma_agreeing_bits(a[words - 1] as u64, a[words - 1] as u64, 64);
    }
}

proof fn lemma_xor_bit(x: u64, y: u64, i: u64)
    by (bit_vector)
    requires
        i < 64,
    ensures
        (((x ^ y) >> i) & 1 == 1) == (((x >> i) & 1 == 1) != ((y >> i) & 1 == 1)),
{
}

/// The bits that are 0 in `x ^ y` are those at which `x` and `y` agree.
pub proof fn lemma_zero_bits_of_xor(x: u64, y: u64, n: nat)
    requires
        n <= 64,
    ensures
        zero_bits(x ^ y, n) == agreeing_bits(x, y, n),
    decreases n,
{
    if n > 0 {
        lemma_zero_bits_of_xor(x, y, (n - 1) as nat);
        lemma_xor_bit(x, y, (n - 1) as u64);
    }
}

/// Calls `u64::count_zeros`.
///
/// Not proved: that the result is the number of the 64 bits of `x` that
/// are 0.
#[verifier::external_body]
pub(crate) fn count_zero_bits(x: u64) -> (r: u32)
    ensures
        r == zero_bits(x, 64),
{
    x.count_zeros()
}

/// `count` out of `total` as a [`Similarity`].
pub fn make_fraction(count: usize, total: usize) -> (r: Similarity)
    requires
        count <= total,
    ensures
        r@ == fraction(count as int, total as int),
{
    if total == 0 {
        Similarity { num: 1, den: 1 }
    } else {
        Similarity { num: count as i128, den: total as i128 }
    }
}

} // verus!
