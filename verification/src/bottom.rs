//! The bottom sketch: the smallest distinct hashes of a sequence.
use crate::bound::{bound_for, collection_bound, lemma_growth_saturates, scale_after};
use crate::collect::{is_below, keep_below};
use crate::order::sorted_distinct;
use crate::similarity::{
    lemma_merge_bounded, lemma_merge_self, lemma_merge_symmetric, make_fraction, merge_matches,
    merge_similarity, Ratio, Similarity,
};
use crate::sketch::{ascending, strictly_ascending, BitSketch, SENTINEL};
use vstd::prelude::*;
use vstd::set_lib::lemma_len_subset;

verus! {

/// The smallest hash that is at least `lo`, or the sentinel where no hash is.
pub open spec fn least_from(hashes: Seq<u32>, lo: int) -> u32
    decreases hashes.len(),
{
    if hashes.len() == 0 {
        SENTINEL
    } else {
        let rest = least_from(hashes.drop_last(), lo);
        let x = hashes.last();
        if lo <= x && x < rest {
            x
        } else {
            rest
        }
    }
}

/// The `s` smallest distinct hashes that are at least `lo`, ascending. Where
/// there are fewer than `s`, the sentinel fills the rest.
pub open spec fn bottom_values(hashes: Seq<u32>, lo: int, s: nat) -> Seq<u32>
    decreases s,
{
    if s == 0 {
        Seq::empty()
    } else {
        let v = least_from(hashes, lo);
        seq![v] + bottom_values(hashes, v + 1, (s - 1) as nat)
    }
}

/// The first `s` values of `d`, or all of them followed by sentinels.
pub open spec fn cut_or_pad(d: Seq<u32>, s: nat) -> Seq<u32> {
    Seq::new(
        s,
        |i: int|
            if i < d.len() {
                d[i]
            } else {
                SENTINEL
            },
    )
}

/// [`least_from`] is a hash that is at least `lo`, unless it is the sentinel,
/// and no hash that is at least `lo` is smaller.
pub proof fn lemma_least_from(hashes: Seq<u32>, lo: int)
    ensures
        least_from(hashes, lo) == SENTINEL || (hashes.contains(least_from(hashes, lo)) && lo
            <= least_from(hashes, lo)),
        forall|i: int|
            0 <= i < hashes.len() && lo <= hashes[i] ==> least_from(hashes, lo) <= #[trigger] hashes[i],
    decreases hashes.len(),
{
    if hashes.len() > 0 {
        let front = hashes.drop_last();
        lemma_least_from(front, lo);
        let rest = least_from(front, lo);
        if front.contains(rest) {
            let w = choose|w: int| 0 <= w < front.len() && front[w] == rest;
            assert(hashes[w] == rest);
        }
        assert(hashes[hashes.len() - 1] == hashes.last());
        assert forall|i: int| 0 <= i < hashes.len() && lo <= hashes[i] implies least_from(
            hashes,
            lo,
        ) <= #[trigger] hashes[i] by {
            if i < hashes.len() - 1 {
                assert(front[i] == hashes[i]);
            }
        }
    }
}

/// A value with the two properties of [`lemma_least_from`] is
/// [`least_from`].
pub proof fn lemma_least_from_is(hashes: Seq<u32>, lo: int, v: u32)
    requires
        v == SENTINEL || (hashes.contains(v) && lo <= v),
        forall|i: int| 0 <= i < hashes.len() && lo <= hashes[i] ==> v <= #[trigger] hashes[i],
    ensures
        least_from(hashes, lo) == v,
{
    lemma_least_from(hashes, lo);
    let r = least_from(hashes, lo);
    if hashes.contains(r) && lo <= r {
        let w = choose|w: int| 0 <= w < hashes.len() && hashes[w] == r;
        assert(v <= hashes[w]);
    }
    if hashes.contains(v) && lo <= v {
        let w = choose|w: int| 0 <= w < hashes.len() && hashes[w] == v;
        assert(r <= hashes[w]);
    }
}

/// Where `d` lists in ascending order, each once, the hashes below `bound`,
/// and either holds `s` of them or `bound` is the sentinel, its first `s`
/// values, padded with sentinels, are the bottom values.
proof fn lemma_bottom_of_distinct(hashes: Seq<u32>, bound: u32, d: Seq<u32>, s: nat, p: nat)
    requires
        strictly_ascending(d),
        forall|x: u32| d.contains(x) <==> (hashes.contains(x) && x < bound),
        d.len() >= s || bound == SENTINEL,
        p <= s,
    ensures
        bottom_values(
            hashes,
            if p == 0 {
                0
            } else {
                cut_or_pad(d, s)[p - 1] + 1
            },
            (s - p) as nat,
        ) == cut_or_pad(d, s).subrange(p as int, s as int),
    decreases s - p,
{
    let out = cut_or_pad(d, s);
    let lo: int = if p == 0 {
        0
    } else {
        out[p - 1] + 1
    };
    if p == s {
        assert(out.subrange(p as int, s as int) =~= Seq::<u32>::empty());
    } else {
        let v = out[p as int];
        if p < d.len() {
            assert(d.contains(d[p as int]));
            assert forall|i: int| 0 <= i < hashes.len() && lo <= hashes[i] implies v
                <= #[trigger] hashes[i] by {
                let x = hashes[i];
                if x < bound {
                    assert(hashes.contains(x));
                    assert(d.contains(x));
                    let q = choose|q: int| 0 <= q < d.len() && d[q] == x;
                    if q < p {
                        assert(d[q] <= d[p - 1]);
                    }
                }
            }
        } else {
            assert forall|i: int| 0 <= i < hashes.len() && lo <= hashes[i] implies v
                <= #[trigger] hashes[i] by {
                let x = hashes[i];
                if x < SENTINEL {
                    assert(hashes.contains(x));
                    assert(d.contains(x));
                    let q = choose|q: int| 0 <= q < d.len() && d[q] == x;
                    if p > 0 && p - 1 < d.len() {
                        assert(d[q] <= d[p - 1]);
                    }
                }
            }
        }
        lemma_least_from_is(hashes, lo, v);
        lemma_bottom_of_distinct(hashes, bound, d, s, p + 1);
        assert(out.subrange(p as int, s as int) =~= seq![v] + out.subrange(p as int + 1, s as int));
    }
}

/// Distinct values that all occur in `room` are no more than `room` is long.
pub proof fn lemma_distinct_values_need_room(values: Seq<u32>, room: Seq<u32>)
    requires
        values.no_duplicates(),
        forall|i: int| 0 <= i < values.len() ==> room.contains(#[trigger] values[i]),
    ensures
        values.len() <= room.len(),
{
    values.unique_seq_to_set();
    room.lemma_cardinality_of_set();
    vstd::seq_lib::seq_to_set_is_finite(room);
    assert(values.to_set().subset_of(room.to_set())) by {
        assert forall|x: u32| values.to_set().contains(x) implies room.to_set().contains(x) by {
            let w = choose|w: int| 0 <= w < values.len() && values[w] == x;
            assert(room.contains(values[w]));
        }
    }
    lemma_len_subset(values.to_set(), room.to_set());
}

/// An attempt with the given scale yields the sketch: the sketch is empty,
/// or the bound is `u32::MAX`, or even the largest of the bottom values lies
/// below the bound.
pub open spec fn bottom_complete(hashes: Seq<u32>, s: nat, scale: nat) -> bool {
    s == 0 || bound_for(hashes.len(), s, scale) == u32::MAX || bottom_values(hashes, 0, s)[s - 1]
        < bound_for(hashes.len(), s, scale)
}

/// Where the largest bottom value lies below `bound`, any list that holds
/// every hash below `bound` is at least `s` long.
proof fn lemma_complete_needs_room(hashes: Seq<u32>, s: nat, bound: u32, room: Seq<u32>)
    requires
        s >= 1,
        bottom_values(hashes, 0, s)[s - 1] < bound,
        forall|x: u32| hashes.contains(x) && x < bound ==> room.contains(x),
    ensures
        s <= room.len(),
{
    let values = bottom_values(hashes, 0, s);
    lemma_bottom_values_ascending(hashes, 0, s);
    assert forall|i: int| 0 <= i < s implies room.contains(#[trigger] values[i]) by {
        assert(values[i] <= values[s - 1]);
    }
    assert forall|i: int, j: int| 0 <= i < j < s implies values[i] != values[j] by {
        assert(values[j] <= values[s - 1]);
    }
    lemma_distinct_values_need_room(values, room);
}

/// One attempt at the bottom values of `hashes` at sketch size `s`.
///
/// The hashes below the bound that [`bound_for`] gives for `scale` are
/// collected and put in ascending order, each once. Where that leaves `s` of
/// them, or the bound is `u32::MAX`, the first `s`, filled up with
/// sentinels, are the bottom values. Otherwise the attempt has failed, and
/// one with a larger scale is due.
pub fn bottom_attempt(hashes: &Vec<u32>, s: usize, scale: u64) -> (r: Option<Vec<u32>>)
    ensures
        r is Some <==> bottom_complete(hashes@, s as nat, scale as nat),
        r matches Some(values) ==> values@ == bottom_values(hashes@, 0, s as nat),
{
    let n: usize = hashes.len();
    let mut out: Vec<u32> = Vec::new();
    let bound: u32 = collection_bound(n, s, scale);
    keep_below(hashes, bound, &mut out);
    let ghost kept = out@;
    proof {
        assert forall|x: u32| kept.contains(x) <==> (hashes@.contains(x) && x < bound) by {
            if kept.contains(x) {
                let t = choose|t: int| 0 <= t < kept.len() && kept[t] == x;
                hashes@.lemma_filter_pred(is_below(bound), t);
                hashes@.lemma_filter_contains_rev(is_below(bound), x);
            }
            if hashes@.contains(x) && x < bound {
                let t = choose|t: int| 0 <= t < hashes@.len() && hashes@[t] == x;
                hashes@.lemma_filter_contains(is_below(bound), t);
            }
        }
    }
    if bound == u32::MAX || out.len() >= s {
        let mut distinct: Vec<u32> = sorted_distinct(&out);
        let ghost d = distinct@;
        if bound == u32::MAX || distinct.len() >= s {
            proof {
                lemma_bottom_of_distinct(hashes@, bound, d, s as nat, 0);
                assert(cut_or_pad(d, s as nat).subrange(0, s as int) =~= cut_or_pad(d, s as nat));
                if 1 <= s <= d.len() {
                    assert(d.contains(d[s - 1]));
                    assert(cut_or_pad(d, s as nat)[s - 1] == d[s - 1]);
                }
            }
            distinct.resize(s, SENTINEL);
            assert(distinct@ =~= cut_or_pad(d, s as nat));
            return Some(distinct);
        }
        proof {
            lemma_bottom_values_ascending(hashes@, 0, s as nat);
            if bottom_values(hashes@, 0, s as nat)[s - 1] < bound {
                lemma_complete_needs_room(hashes@, s as nat, bound, d);
            }
        }
        return None;
    }
    proof {
        lemma_bottom_values_ascending(hashes@, 0, s as nat);
        if bottom_values(hashes@, 0, s as nat)[s - 1] < bound {
            lemma_complete_needs_room(hashes@, s as nat, bound, kept);
        }
    }
    None
}

/// The attempts end: with whatever scale the first is made, the 65th at the
/// latest yields the sketch.
pub proof fn lemma_bottom_attempts_end(hashes: Seq<u32>, s: nat, scale: nat)
    ensures
        bottom_complete(hashes, s, scale_after(scale, 64)),
{
    if s >= 1 {
        lemma_growth_saturates(hashes.len(), s, scale);
    }
}

/// The bottom values are `s` in number and ascending, and each is at least
/// `lo` or the sentinel.
pub proof fn lemma_bottom_values_ascending(hashes: Seq<u32>, lo: int, s: nat)
    ensures
        bottom_values(hashes, lo, s).len() == s,
        ascending(bottom_values(hashes, lo, s)),
        forall|i: int|
            0 <= i < s ==> lo <= #[trigger] bottom_values(hashes, lo, s)[i] || bottom_values(
                hashes,
                lo,
                s,
            )[i] == SENTINEL,
        forall|i: int|
            0 <= i < s ==> hashes.contains(#[trigger] bottom_values(hashes, lo, s)[i])
                || bottom_values(hashes, lo, s)[i] == SENTINEL,
        forall|i: int, j: int|
            0 <= i < j < s ==> bottom_values(hashes, lo, s)[i] < bottom_values(hashes, lo, s)[j]
                || bottom_values(hashes, lo, s)[j] == SENTINEL,
    decreases s,
{
    if s > 0 {
        let v = least_from(hashes, lo);
        let rest = bottom_values(hashes, v + 1, (s - 1) as nat);
        let all = bottom_values(hashes, lo, s);
        lemma_least_from(hashes, lo);
        lemma_bottom_values_ascending(hashes, v + 1, (s - 1) as nat);
        assert(all =~= seq![v] + rest);
        assert forall|i: int| 0 < i < s implies v <= #[trigger] all[i] by {
            assert(all[i] == rest[i - 1]);
        }
        assert forall|i: int, j: int| 0 <= i <= j < s implies all[i] <= all[j] by {
            if i > 0 {
                assert(all[i] == rest[i - 1]);
                assert(all[j] == rest[j - 1]);
            }
        }
        assert forall|i: int| 0 <= i < s implies lo <= #[trigger] all[i] || all[i]
            == SENTINEL by {
            if i > 0 {
                assert(all[i] == rest[i - 1]);
            }
        }
        assert forall|i: int| 0 <= i < s implies hashes.contains(#[trigger] all[i]) || all[i]
            == SENTINEL by {
            if i > 0 {
                assert(all[i] == rest[i - 1]);
            }
        }
        assert forall|i: int, j: int| 0 <= i < j < s implies all[i] < all[j] || all[j]
            == SENTINEL by {
            assert(all[j] == rest[j - 1]);
            if i > 0 {
                assert(all[i] == rest[i - 1]);
            }
        }
    }
}

/// The bottom values depend on which hashes occur, not on their order nor
/// on how often each occurs.
pub proof fn lemma_bottom_values_same_hashes(a: Seq<u32>, b: Seq<u32>, lo: int, s: nat)
    requires
        forall|x: u32| a.contains(x) <==> b.contains(x),
    ensures
        bottom_values(a, lo, s) == bottom_values(b, lo, s),
    decreases s,
{
    if s > 0 {
        let v = least_from(a, lo);
        lemma_least_from(a, lo);
        assert forall|i: int| 0 <= i < b.len() && lo <= b[i] implies v <= #[trigger] b[i] by {
            assert(b.contains(b[i]));
            let w = choose|w: int| 0 <= w < a.len() && a[w] == b[i];
            assert(v <= a[w]);
        }
        lemma_least_from_is(b, lo, v);
        lemma_bottom_values_same_hashes(a, b, v + 1, (s - 1) as nat);
    }
}

/// The hashes in reverse order have the same bottom values.
pub proof fn lemma_bottom_values_reversed(hashes: Seq<u32>, s: nat)
    ensures
        bottom_values(hashes.reverse(), 0, s) == bottom_values(hashes, 0, s),
{
    let r = hashes.reverse();
    assert forall|x: u32| r.contains(x) <==> hashes.contains(x) by {
        if r.contains(x) {
            let w = choose|w: int| 0 <= w < r.len() && r[w] == x;
            assert(hashes[hashes.len() - 1 - w] == x);
        }
        if hashes.contains(x) {
            let w = choose|w: int| 0 <= w < hashes.len() && hashes[w] == x;
            assert(r[hashes.len() - 1 - w] == x);
        }
    }
    lemma_bottom_values_same_hashes(r, hashes, 0, s);
}

/// Without a hash every bottom value is the sentinel.
pub proof fn lemma_bottom_values_without_hashes(hashes: Seq<u32>, lo: int, s: nat)
    requires
        hashes.len() == 0,
    ensures
        forall|i: int| 0 <= i < s ==> #[trigger] bottom_values(hashes, lo, s)[i] == SENTINEL,
    decreases s,
{
    if s > 0 {
        let v = least_from(hashes, lo);
        let rest = bottom_values(hashes, v + 1, (s - 1) as nat);
        lemma_bottom_values_without_hashes(hashes, v + 1, (s - 1) as nat);
        lemma_bottom_values_ascending(hashes, v + 1, (s - 1) as nat);
        assert(bottom_values(hashes, lo, s) =~= seq![v] + rest);
        assert forall|i: int| 0 <= i < s implies #[trigger] bottom_values(hashes, lo, s)[i]
            == SENTINEL by {
            if i > 0 {
                assert(bottom_values(hashes, lo, s)[i] == rest[i - 1]);
            }
        }
    }
}

/// A sketch of the smallest distinct k-mer hashes of a sequence.
pub struct BottomMash {
    /// Whether the k-mers were hashed canonically.
    pub rc: bool,
    /// The k-mer length.
    pub k: usize,
    /// The number of bits kept of each hash.
    pub b: usize,
    /// The retained hashes, ascending before they were cut to `b` bits.
    pub bottom: BitSketch,
}

impl BottomMash {
    /// The sketch is stored at the width it names.
    pub open spec fn wf(&self) -> bool {
        self.bottom.width() == self.b
    }

    /// The two sketches were made with the same strand mode, k-mer length,
    /// width and size, at a width of 32, 16 or 8 bits.
    pub open spec fn comparable(&self, other: &Self) -> bool {
        &&& self.rc == other.rc
        &&& self.k == other.k
        &&& self.b == other.b
        &&& self.bottom.width() == other.bottom.width()
        &&& self.bottom.width() != 1
        &&& self.bottom.entries().len() == other.bottom.entries().len()
    }

    /// Tells whether the two sketches can be compared.
    pub fn is_comparable(&self, other: &Self) -> (r: bool)
        ensures
            r == self.comparable(other),
    {
        self.rc == other.rc && self.k == other.k && self.b == other.b && self.bottom.bits()
            == other.bottom.bits() && self.bottom.bits() != 1 && self.bottom.len()
            == other.bottom.len()
    }

    /// The similarity of the two sketches: the matches that a merge of as
    /// many steps as a sketch has entries finds, out of that number.
    pub open spec fn similarity_spec(&self, other: &Self) -> Ratio {
        merge_similarity(self.bottom.entries(), other.bottom.entries())
    }

    /// Computes the similarity of two sketches.
    ///
    /// Sketches that are not comparable are a misuse that the caller has to
    /// rule out.
    pub fn similarity(&self, other: &Self) -> (r: Similarity)
        requires
            self.comparable(other),
        ensures
            r@ == self.similarity_spec(other),
    {
        Self::inner_similarity(&self.bottom, &other.bottom)
    }

    /// Merges two sketches of equally many entries and counts the matches.
    pub fn inner_similarity(a: &BitSketch, b: &BitSketch) -> (r: Similarity)
        requires
            a.entries().len() == b.entries().len(),
        ensures
            r@ == merge_similarity(a.entries(), b.entries()),
    {
        let n: usize = a.len();
        let ghost ea = a.entries();
        let ghost eb = b.entries();
        let mut matches: usize = 0;
        let mut i: usize = 0;
        let mut j: usize = 0;
        let mut steps: usize = 0;
        while steps < n
            invariant
                ea == a.entries(),
                eb == b.entries(),
                n == ea.len(),
                n == eb.len(),
                i <= steps,
                j <= steps,
                matches <= steps,
                steps <= n,
                matches + merge_matches(ea, eb, i as int, j as int, (n - steps) as nat)
                    == merge_matches(ea, eb, 0, 0, n as nat),
            decreases n - steps,
        {
            let x: u64 = a.entry(i);
            let y: u64 = b.entry(j);
            if x == y {
                matches += 1;
                i += 1;
                j += 1;
            } else if x < y {
                i += 1;
            } else {
                j += 1;
            }
            steps += 1;
        }
        make_fraction(matches, n)
    }

    /// The similarity does not depend on which sketch is taken first.
    pub proof fn lemma_similarity_symmetric(&self, other: &Self)
        requires
            self.comparable(other),
        ensures
            self.similarity_spec(other) == other.similarity_spec(self),
    {
        lemma_merge_symmetric(
            self.bottom.entries(),
            other.bottom.entries(),
            0,
            0,
            self.bottom.entries().len(),
        );
    }

    /// A sketch has similarity 1 to itself.
    pub proof fn lemma_self_similarity(&self)
        ensures
            self.similarity_spec(self).is_one(),
    {
        lemma_merge_self(self.bottom.entries(), 0, self.bottom.entries().len());
    }

    /// Two sketches of size 0 have similarity 1.
    pub proof fn lemma_empty_similarity(&self, other: &Self)
        requires
            self.bottom.entries().len() == 0,
        ensures
            self.similarity_spec(other).is_one(),
    {
    }

    /// The similarity is a fraction between 0 and 1.
    pub proof fn lemma_similarity_range(&self, other: &Self)
        ensures
            0 <= self.similarity_spec(other).num <= self.similarity_spec(other).den,
            self.similarity_spec(other).den > 0,
    {
        lemma_merge_bounded(
            self.bottom.entries(),
            other.bottom.entries(),
            0,
            0,
            self.bottom.entries().len(),
        );
    }
}

} // verus!
