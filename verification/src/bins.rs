//! The bin sketch: for each remainder modulo the sketch size, the smallest
//! hash with that remainder.
use crate::bottom::lemma_distinct_values_need_room;
use crate::bound::{bound_for, collection_bound, lemma_growth_saturates, scale_after};
use crate::collect::{below, is_below, keep_below};
use crate::fastmod::FM32;
use crate::similarity::{
    bitwise_similarity, count_agreeing_bits, count_equal, count_zero_bits, lemma_agreeing_bits,
    lemma_count_agreeing_bits, lemma_count_equal_self, lemma_count_equal_symmetric,
    lemma_zero_bits_of_xor, make_fraction, positional_similarity, Ratio, Similarity,
};
use crate::sketch::{BitSketch, SENTINEL};
use vstd::arithmetic::div_mod::{lemma_basic_div, lemma_small_mod};
use vstd::prelude::*;

verus! {

/// The bucket of hash `h` in a sketch of size `s`: its remainder modulo `s`.
pub open spec fn bucket_of(h: u32, s: int) -> int {
    (h as int) % s
}

/// The smallest hash with remainder `j` modulo `s`, or the sentinel where no
/// hash has that remainder.
pub open spec fn bucket_min(hashes: Seq<u32>, s: int, j: int) -> u32
    decreases hashes.len(),
{
    if hashes.len() == 0 {
        SENTINEL
    } else {
        let rest = bucket_min(hashes.drop_last(), s, j);
        let x = hashes.last();
        if bucket_of(x, s) == j && x < rest {
            x
        } else {
            rest
        }
    }
}

/// The value that a bucket holds whose smallest hash is `least`: the
/// quotient by `s`, which with the bucket's number, the remainder, gives the
/// hash back. A bucket without a hash holds the sentinel. A hash that is
/// itself the sentinel counts as none: no bound lets it be collected.
pub open spec fn bin_value(least: u32, s: int) -> u32 {
    if least == SENTINEL {
        SENTINEL
    } else {
        (least as int / s) as u32
    }
}

/// The values of a bin sketch of size `s`: for each bucket the quotient by
/// `s` of its smallest hash, and the sentinel for a bucket without a hash.
pub open spec fn bin_values(hashes: Seq<u32>, s: nat) -> Seq<u32> {
    Seq::new(s, |j: int| bin_value(bucket_min(hashes, s as int, j), s as int))
}

/// [`bucket_min`] is a hash of bucket `j`, unless it is the sentinel, and no
/// hash of that bucket is smaller.
pub proof fn lemma_bucket_min(hashes: Seq<u32>, s: int, j: int)
    ensures
        bucket_min(hashes, s, j) == SENTINEL || (hashes.contains(bucket_min(hashes, s, j))
            && bucket_of(bucket_min(hashes, s, j), s) == j),
        forall|i: int|
            0 <= i < hashes.len() && bucket_of(hashes[i], s) == j ==> bucket_min(hashes, s, j)
                <= #[trigger] hashes[i],
    decreases hashes.len(),
{
    if hashes.len() > 0 {
        let front = hashes.drop_last();
        lemma_bucket_min(front, s, j);
        let rest = bucket_min(front, s, j);
        if front.contains(rest) {
            let w = choose|w: int| 0 <= w < front.len() && front[w] == rest;
            assert(hashes[w] == rest);
        }
        assert(hashes[hashes.len() - 1] == hashes.last());
        assert forall|i: int| 0 <= i < hashes.len() && bucket_of(hashes[i], s) == j implies bucket_min(
            hashes,
            s,
            j,
        ) <= #[trigger] hashes[i] by {
            if i < hashes.len() - 1 {
                assert(front[i] == hashes[i]);
            }
        }
    }
}

/// A value with the two properties of [`lemma_bucket_min`] is
/// [`bucket_min`].
pub proof fn lemma_bucket_min_is(hashes: Seq<u32>, s: int, j: int, v: u32)
    requires
        v == SENTINEL || (hashes.contains(v) && bucket_of(v, s) == j),
        forall|i: int| 0 <= i < hashes.len() && bucket_of(hashes[i], s) == j ==> v <= #[trigger] hashes[i],
    ensures
        bucket_min(hashes, s, j) == v,
{
    lemma_bucket_min(hashes, s, j);
    let r = bucket_min(hashes, s, j);
    if hashes.contains(r) && bucket_of(r, s) == j {
        let w = choose|w: int| 0 <= w < hashes.len() && hashes[w] == r;
        assert(v <= hashes[w]);
    }
    if hashes.contains(v) && bucket_of(v, s) == j {
        let w = choose|w: int| 0 <= w < hashes.len() && hashes[w] == v;
        assert(r <= hashes[w]);
    }
}

/// A bucket holds the sentinel if and only if no hash below the sentinel has
/// its remainder: an empty bucket cannot be taken for a filled one.
pub proof fn lemma_sentinel_marks_empty(hashes: Seq<u32>, s: nat, j: int)
    requires
        0 <= j < s,
    ensures
        bin_values(hashes, s)[j] == SENTINEL <==> forall|i: int|
            0 <= i < hashes.len() && bucket_of(hashes[i], s as int) == j ==> #[trigger] hashes[i]
                == SENTINEL,
{
    let least = bucket_min(hashes, s as int, j);
    lemma_bucket_min(hashes, s as int, j);
    if least != SENTINEL {
        assert((least as int) / (s as int) <= least as int) by (nonlinear_arith)
            requires
                least >= 0,
                s >= 1,
        ;
        assert((least as int) / (s as int) >= 0) by (nonlinear_arith)
            requires
                least >= 0,
                s >= 1,
        ;
        let w = choose|w: int| 0 <= w < hashes.len() && hashes[w] == least;
        assert(bucket_of(hashes[w], s as int) == j && hashes[w] != SENTINEL);
    }
}

/// The values of a bin sketch depend on which hashes occur, not on their
/// order nor on how often each occurs.
pub proof fn lemma_bin_values_same_hashes(a: Seq<u32>, b: Seq<u32>, s: nat)
    requires
        forall|x: u32| a.contains(x) <==> b.contains(x),
    ensures
        bin_values(a, s) == bin_values(b, s),
{
    assert forall|j: int| 0 <= j < s implies bucket_min(a, s as int, j) == bucket_min(
        b,
        s as int,
        j,
    ) by {
        let v = bucket_min(a, s as int, j);
        lemma_bucket_min(a, s as int, j);
        assert forall|i: int| 0 <= i < b.len() && bucket_of(b[i], s as int) == j implies v
            <= #[trigger] b[i] by {
            assert(b.contains(b[i]));
            let w = choose|w: int| 0 <= w < a.len() && a[w] == b[i];
            assert(v <= a[w]);
        }
        lemma_bucket_min_is(b, s as int, j, v);
    }
    assert(bin_values(a, s) =~= bin_values(b, s));
}

/// The hashes in reverse order have the same bin values.
pub proof fn lemma_bin_values_reversed(hashes: Seq<u32>, s: nat)
    ensures
        bin_values(hashes.reverse(), s) == bin_values(hashes, s),
{
    let r = hashes.reverse();
    assert forall|x: u32| r.contains(x) <==> hashes.contains(x) by {
        if r.contains(x) {
            let w = choose|w: int| 0 <= w < r.len() && r[w] == x;
            assert(hashes[hashes.len() - 1 - w] == x);
        }
        if hashes.contains(x) {
            let w = choose|w: int| 0 <= w < hashes.len() && hashes[w] == x;
            assert(r[hashes.len() - 1 - w] == x);
        }
    }
    lemma_bin_values_same_hashes(r, hashes, s);
}

/// `m` is what reduces hashes modulo `s`: a reducer for `s`, or none for a
/// size that has none. A sketch of one bucket needs no reducer, and neither
/// does one of more buckets than there are hashes, where every hash is its
/// own remainder.
pub open spec fn reduces(m: Option<FM32>, s: int) -> bool {
    match m {
        Some(reducer) => reducer.wf() && reducer.divisor() == s,
        None => s == 1 || s > u32::MAX,
    }
}

/// What reduces hashes modulo `s`.
fn reducer_for(s: usize) -> (m: Option<FM32>)
    requires
        s >= 1,
    ensures
        reduces(m, s as int),
{
    if s == 1 || s > 0xffff_ffff {
        None
    } else {
        Some(FM32::new(s as u32))
    }
}

/// The bucket of `h` in a sketch of size `s`.
fn bucket_index(m: &Option<FM32>, s: usize, h: u32) -> (j: usize)
    requires
        reduces(*m, s as int),
    ensures
        j == bucket_of(h, s as int),
        j < s,
{
    match m {
        Some(reducer) => reducer.fastmod(h),
        None => {
            if s == 1 {
                0
            } else {
                proof {
                    lemma_small_mod(h as nat, s as nat);
                }
                h as usize
            }
        },
    }
}

/// The value that is stored for a bucket whose smallest hash is `least`.
fn bucket_value(m: &Option<FM32>, s: usize, least: u32) -> (q: u32)
    requires
        reduces(*m, s as int),
    ensures
        q == bin_value(least, s as int),
{
    if least == SENTINEL {
        return SENTINEL;
    }
    match m {
        Some(reducer) => reducer.fastdiv(least) as u32,
        None => {
            if s == 1 {
                least
            } else {
                proof {
                    lemma_basic_div(least as int, s as int);
                }
                0
            }
        },
    }
}

/// What the buckets hold: each either nothing, or a hash of its remainder
/// class that is below `bound`.
spec fn partly_filled(bins: Seq<u32>, hashes: Seq<u32>, s: int, bound: int) -> bool {
    &&& bins.len() == s
    &&& forall|j: int|
        0 <= j < s ==> #[trigger] bins[j] == SENTINEL || (hashes.contains(bins[j]) && bucket_of(
            bins[j],
            s,
        ) == j && bins[j] < bound)
}

/// Lowers each bucket to the smallest of the collected hashes that fall into
/// it.
fn fill_bins(
    bins: &mut Vec<u32>,
    collected: &Vec<u32>,
    m: &Option<FM32>,
    Ghost(hashes): Ghost<Seq<u32>>,
    bound: u32,
)
    requires
        reduces(*m, old(bins)@.len() as int),
        collected@ == below(hashes, bound),
        partly_filled(old(bins)@, hashes, old(bins)@.len() as int, bound as int),
    ensures
        partly_filled(final(bins)@, hashes, old(bins)@.len() as int, bound as int),
        forall|i: int|
            0 <= i < hashes.len() && hashes[i] < bound ==> final(bins)@[bucket_of(
                hashes[i],
                old(bins)@.len() as int,
            )] <= #[trigger] hashes[i],
{
    let size: usize = bins.len();
    let ghost s = size as int;
    let mut t: usize = 0;
    while t < collected.len()
        invariant
            reduces(*m, s),
            s == size,
            s == bins@.len(),
            t <= collected.len(),
            collected@ == below(hashes, bound),
            partly_filled(bins@, hashes, s, bound as int),
            forall|i: int| 0 <= i < t ==> bins@[bucket_of(collected@[i], s)] <= #[trigger] collected@[i],
        decreases collected.len() - t,
    {
        let h: u32 = collected[t];
        let bin: usize = bucket_index(m, size, h);
        proof {
            hashes.lemma_filter_pred(is_below(bound), t as int);
            assert(collected@.contains(h));
            hashes.lemma_filter_contains_rev(is_below(bound), h);
        }
        if h < bins[bin] {
            let ghost before = bins@;
            bins[bin] = h;
            assert forall|i: int| 0 <= i < t + 1 implies bins@[bucket_of(collected@[i], s)]
                <= #[trigger] collected@[i] by {
                if i < t {
                    assert(before[bucket_of(collected@[i], s)] <= collected@[i]);
                }
            }
        }
        t += 1;
    }
    proof {
        assert forall|i: int| 0 <= i < hashes.len() && hashes[i] < bound implies bins@[bucket_of(
            hashes[i],
            s,
        )] <= #[trigger] hashes[i] by {
            hashes.lemma_filter_contains(is_below(bound), i);
            let w = choose|w: int| 0 <= w < collected@.len() && collected@[w] == hashes[i];
            assert(bins@[bucket_of(collected@[w], s)] <= collected@[w]);
        }
    }
}

/// Tells whether every bucket holds a hash.
fn all_filled(bins: &Vec<u32>) -> (r: bool)
    ensures
        r == (forall|j: int| 0 <= j < bins@.len() ==> bins@[j] != SENTINEL),
{
    let mut j: usize = 0;
    while j < bins.len()
        invariant
            j <= bins.len(),
            forall|i: int| 0 <= i < j ==> bins@[i] != SENTINEL,
        decreases bins.len() - j,
    {
        if bins[j] == SENTINEL {
            return false;
        }
        j += 1;
    }
    true
}

/// An attempt with the given scale yields the sketch: the bound is
/// `u32::MAX`, or every bucket has a hash below the bound.
pub open spec fn bin_complete(hashes: Seq<u32>, s: nat, scale: nat) -> bool {
    bound_for(hashes.len(), s, scale) == u32::MAX || forall|j: int|
        0 <= j < s ==> #[trigger] bucket_min(hashes, s as int, j) < bound_for(
            hashes.len(),
            s,
            scale,
        )
}

/// Where every bucket has a hash below `bound`, the list of all hashes below
/// `bound` is at least `s` long.
proof fn lemma_filled_buckets_need_room(hashes: Seq<u32>, s: nat, bound: u32, room: Seq<u32>)
    requires
        forall|j: int| 0 <= j < s ==> #[trigger] bucket_min(hashes, s as int, j) < bound,
        forall|x: u32| hashes.contains(x) && x < bound ==> room.contains(x),
    ensures
        s <= room.len(),
{
    let least = Seq::new(s, |j: int| bucket_min(hashes, s as int, j));
    assert forall|j: int| 0 <= j < s implies room.contains(#[trigger] least[j]) && bucket_of(
        least[j],
        s as int,
    ) == j by {
        lemma_bucket_min(hashes, s as int, j);
        assert(bucket_min(hashes, s as int, j) < bound);
    }
    assert forall|i: int, j: int| 0 <= i < j < s implies least[i] != least[j] by {
        assert(bucket_of(least[i], s as int) == i);
        assert(bucket_of(least[j], s as int) == j);
    }
    lemma_distinct_values_need_room(least, room);
}

/// One attempt at the values of the bin sketch of `hashes` at size `s`.
///
/// The hashes below the bound that [`bound_for`] gives for `scale` are
/// collected and the smallest of each bucket is kept. Where every bucket
/// has one, or the bound is `u32::MAX`, these are the smallest of all hashes
/// of each bucket. Their quotients by `s` are the values, and the sentinel
/// for each bucket that is still without a hash. Otherwise the attempt has
/// failed, and one with a larger scale is due.
pub fn bin_attempt(hashes: &Vec<u32>, s: usize, scale: u64) -> (r: Option<Vec<u32>>)
    ensures
        r is Some <==> bin_complete(hashes@, s as nat, scale as nat),
        r matches Some(values) ==> values@ == bin_values(hashes@, s as nat),
{
    if s == 0 {
        let empty: Vec<u32> = Vec::new();
        assert(empty@ =~= bin_values(hashes@, 0));
        return Some(empty);
    }
    let n: usize = hashes.len();
    let bound: u32 = collection_bound(n, s, scale);
    let mut out: Vec<u32> = Vec::new();
    keep_below(hashes, bound, &mut out);
    proof {
        assert forall|x: u32| hashes@.contains(x) && x < bound implies out@.contains(x) by {
            let t = choose|t: int| 0 <= t < hashes@.len() && hashes@[t] == x;
            hashes@.lemma_filter_contains(is_below(bound), t);
        }
    }
    if bound == u32::MAX || out.len() >= s {
        let m: Option<FM32> = reducer_for(s);
        let mut bins: Vec<u32> = vec![SENTINEL; s];
        fill_bins(&mut bins, &out, &m, Ghost(hashes@), bound);
        let complete: bool = all_filled(&bins);
        if bound == u32::MAX || complete {
            proof {
                assert forall|j: int| 0 <= j < s implies bins@[j] == #[trigger] bucket_min(
                    hashes@,
                    s as int,
                    j,
                ) by {
                    let v = bins@[j];
                    assert forall|i: int|
                        0 <= i < hashes@.len() && bucket_of(hashes@[i], s as int) == j implies v
                        <= #[trigger] hashes@[i] by {
                        if hashes@[i] < bound {
                            assert(bins@[bucket_of(hashes@[i], s as int)] <= hashes@[i]);
                        }
                    }
                    lemma_bucket_min_is(hashes@, s as int, j, v);
                }
            }
            let mut values: Vec<u32> = Vec::with_capacity(s);
            let mut j: usize = 0;
            while j < s
                invariant
                    j <= s,
                    s == bins@.len(),
                    reduces(m, s as int),
                    values@.len() == j,
                    forall|i: int| 0 <= i < j ==> values@[i] == bin_value(bins@[i], s as int),
                decreases s - j,
            {
                let q: u32 = bucket_value(&m, s, bins[j]);
                values.push(q);
                j += 1;
            }
            assert(values@ =~= bin_values(hashes@, s as nat));
            return Some(values);
        }
        proof {
            let empty = choose|j: int| 0 <= j < s && bins@[j] == SENTINEL;
            lemma_bucket_min(hashes@, s as int, empty);
            let least = bucket_min(hashes@, s as int, empty);
            if least < bound {
                let w = choose|w: int| 0 <= w < hashes@.len() && hashes@[w] == least;
                assert(bins@[bucket_of(hashes@[w], s as int)] <= hashes@[w]);
            }
        }
        return None;
    }
    proof {
        if forall|j: int| 0 <= j < s ==> #[trigger] bucket_min(hashes@, s as int, j) < bound {
            lemma_filled_buckets_need_room(hashes@, s as nat, bound, out@);
        }
    }
    None
}

/// The attempts end: with whatever scale the first is made, the 65th at the
/// latest yields the sketch.
pub proof fn lemma_bin_attempts_end(hashes: Seq<u32>, s: nat, scale: nat)
    ensures
        bin_complete(hashes, s, scale_after(scale, 64)),
{
    if s >= 1 {
        lemma_growth_saturates(hashes.len(), s, scale);
    } else {
        assert(bin_complete(hashes, s, scale_after(scale, 64)));
    }
}

/// A sketch of the smallest k-mer hash of each remainder class modulo the
/// sketch size.
pub struct BinMash {
    /// Whether the k-mers were hashed canonically.
    pub rc: bool,
    /// The k-mer length.
    pub k: usize,
    /// The number of bits kept of each bucket's value.
    pub b: usize,
    /// One value per bucket.
    pub bins: BitSketch,
}

impl BinMash {
    /// The sketch is stored at the width it names.
    pub open spec fn wf(&self) -> bool {
        self.bins.width() == self.b
    }

    /// The two sketches were made with the same strand mode, k-mer length,
    /// width and size.
    pub open spec fn comparable(&self, other: &Self) -> bool {
        &&& self.rc == other.rc
        &&& self.k == other.k
        &&& self.b == other.b
        &&& self.bins.width() == other.bins.width()
        &&& self.bins.entries().len() == other.bins.entries().len()
    }

    /// Tells whether the two sketches can be compared.
    pub fn is_comparable(&self, other: &Self) -> (r: bool)
        ensures
            r == self.comparable(other),
    {
        self.rc == other.rc && self.k == other.k && self.b == other.b && self.bins.bits()
            == other.bins.bits() && self.bins.len() == other.bins.len()
    }

    /// The similarity of the two sketches. At widths 32, 16 and 8: the
    /// buckets with the same entry, out of all buckets. At width 1: `2 f - 1`
    /// for the fraction `f` of agreeing bits.
    pub open spec fn similarity_spec(&self, other: &Self) -> Ratio {
        if self.bins.width() == 1 {
            bitwise_similarity(self.bins.entries(), other.bins.entries())
        } else {
            positional_similarity(self.bins.entries(), other.bins.entries())
        }
    }

    /// Computes the similarity of two sketches.
    ///
    /// Sketches that are not comparable are a misuse that the caller has to
    /// rule out.
    pub fn similarity(&self, other: &Self) -> (r: Similarity)
        requires
            self.comparable(other),
        ensures
            r@ == self.similarity_spec(other),
    {
        if self.bins.bits() == 1 {
            Self::b1_similarity(&self.bins, &other.bins)
        } else {
            Self::inner_similarity(&self.bins, &other.bins)
        }
    }

    /// Counts the positions at which two sketches of equally many entries
    /// hold the same entry.
    pub fn inner_similarity(a: &BitSketch, b: &BitSketch) -> (r: Similarity)
        requires
            a.entries().len() == b.entries().len(),
        ensures
            r@ == positional_similarity(a.entries(), b.entries()),
    {
        let n: usize = a.len();
        let ghost ea = a.entries();
        let ghost eb = b.entries();
        let mut same: usize = 0;
        let mut i: usize = 0;
        while i < n
            invariant
                ea == a.entries(),
                eb == b.entries(),
                n == ea.len(),
                n == eb.len(),
                i <= n,
                same <= i,
                same == count_equal(ea, eb, i as nat),
            decreases n - i,
        {
            if a.entry(i) == b.entry(i) {
                same += 1;
            }
            i += 1;
        }
        make_fraction(same, n)
    }

    /// Counts the bits at which two one-bit sketches of equally many words
    /// agree, and rescales.
    pub fn b1_similarity(a: &BitSketch, b: &BitSketch) -> (r: Similarity)
        requires
            a.width() == 1,
            b.width() == 1,
            a.entries().len() == b.entries().len(),
        ensures
            r@ == bitwise_similarity(a.entries(), b.entries()),
    {
        let n: usize = a.len();
        let ghost ea = a.entries();
        let ghost eb = b.entries();
        let mut agree: u128 = 0;
        let mut i: usize = 0;
        while i < n
            invariant
                ea == a.entries(),
                eb == b.entries(),
                a.width() == 1,
                b.width() == 1,
                n == ea.len(),
                n == eb.len(),
                i <= n,
                agree <= 64 * i,
                agree == count_agreeing_bits(ea, eb, i as nat),
            decreases n - i,
        {
            let x: u64 = a.entry(i);
            let y: u64 = b.entry(i);
            let zeros: u32 = count_zero_bits(x ^ y);
            proof {
                lemma_zero_bits_of_xor(x, y, 64);
                lemma_agreeing_bits(x, y, 64);
                assert(ea[i as int] as u64 == x);
                assert(eb[i as int] as u64 == y);
            }
            agree = agree + zeros as u128;
            i += 1;
        }
        if n == 0 {
            Similarity { num: 1, den: 1 }
        } else {
            let total: i128 = 64 * (n as i128);
            Similarity { num: 2 * (agree as i128) - total, den: total }
        }
    }

    /// The similarity does not depend on which sketch is taken first.
    pub proof fn lemma_similarity_symmetric(&self, other: &Self)
        requires
            self.comparable(other),
        ensures
            self.similarity_spec(other) == other.similarity_spec(self),
    {
        lemma_count_equal_symmetric(
            self.bins.entries(),
            other.bins.entries(),
            self.bins.entries().len(),
        );
        lemma_count_agreeing_bits(
            self.bins.entries(),
            other.bins.entries(),
            self.bins.entries().len(),
        );
    }

    /// A sketch has similarity 1 to itself.
    pub proof fn lemma_self_similarity(&self)
        ensures
            self.similarity_spec(self).is_one(),
    {
        lemma_count_equal_self(self.bins.entries(), self.bins.entries().len());
        lemma_count_agreeing_bits(
            self.bins.entries(),
            self.bins.entries(),
            self.bins.entries().len(),
        );
    }

    /// Two sketches of size 0 have similarity 1.
    pub proof fn lemma_empty_similarity(&self, other: &Self)
        requires
            self.bins.entries().len() == 0,
        ensures
            self.similarity_spec(other).is_one(),
    {
    }

    /// The similarity is a fraction between 0 and 1, at width 1 between -1
    /// and 1.
    pub proof fn lemma_similarity_range(&self, other: &Self)
        ensures
            self.similarity_spec(other).den > 0,
            -self.similarity_spec(other).den <= self.similarity_spec(other).num
                <= self.similarity_spec(other).den,
            self.bins.width() != 1 ==> 0 <= self.similarity_spec(other).num,
    {
        lemma_count_equal_symmetric(
            self.bins.entries(),
            other.bins.entries(),
            self.bins.entries().len(),
        );
        lemma_count_agreeing_bits(
            self.bins.entries(),
            other.bins.entries(),
            self.bins.entries().len(),
        );
    }
}

} // verus!
