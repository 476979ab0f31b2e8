//! Putting hashes in ascending order, each once.
use crate::sketch::strictly_ascending;
use vstd::prelude::*;

verus! {

proof fn lemma_take_one_more(s: Seq<u32>, i: int, x: u32)
    requires
        0 <= i < s.len(),
    ensures
        s.take(i + 1).contains(x) <==> (s.take(i).contains(x) || s[i] == x),
{
    let short = s.take(i);
    let long = s.take(i + 1);
    if long.contains(x) {
        let w = choose|w: int| 0 <= w < long.len() && long[w] == x;
        if w < i {
            assert(short[w] == x);
        }
    }
    if short.contains(x) {
        let w = choose|w: int| 0 <= w < short.len() && short[w] == x;
        assert(long[w] == x);
    }
    if s[i] == x {
        assert(long[i] == x);
    }
}

proof fn lemma_push_one_more(s: Seq<u32>, v: u32, x: u32)
    ensures
        s.push(v).contains(x) <==> (s.contains(x) || v == x),
{
    let long = s.push(v);
    if long.contains(x) {
        let w = choose|w: int| 0 <= w < long.len() && long[w] == x;
        if w < s.len() {
            assert(s[w] == x);
        }
    }
    if s.contains(x) {
        let w = choose|w: int| 0 <= w < s.len() && s[w] == x;
        assert(long[w] == x);
    }
    if v == x {
        assert(long[s.len() as int] == x);
    }
}

proof fn lemma_split_range(s: Seq<u32>, lo: int, mid: int, hi: int, x: u32)
    requires
        0 <= lo <= mid <= hi <= s.len(),
    ensures
        s.subrange(lo, hi).contains(x) <==> (s.subrange(lo, mid).contains(x) || s.subrange(
            mid,
            hi,
        ).contains(x)),
{
    let all = s.subrange(lo, hi);
    let left = s.subrange(lo, mid);
    let right = s.subrange(mid, hi);
    if all.contains(x) {
        let w = choose|w: int| 0 <= w < all.len() && all[w] == x;
        if w < mid - lo {
            assert(left[w] == x);
        } else {
            assert(right[w - (mid - lo)] == x);
        }
    }
    if left.contains(x) {
        let w = choose|w: int| 0 <= w < left.len() && left[w] == x;
        assert(all[w] == x);
    }
    if right.contains(x) {
        let w = choose|w: int| 0 <= w < right.len() && right[w] == x;
        assert(all[w + (mid - lo)] == x);
    }
}

/// The values of two ascending lists without repeats, in one such list.
pub fn merge_distinct(a: &Vec<u32>, b: &Vec<u32>) -> (r: Vec<u32>)
    requires
        strictly_ascending(a@),
        strictly_ascending(b@),
    ensures
        strictly_ascending(r@),
        forall|x: u32| r@.contains(x) <==> (a@.contains(x) || b@.contains(x)),
{
    let mut out: Vec<u32> = Vec::new();
    let mut i: usize = 0;
    let mut j: usize = 0;
    while i < a.len() || j < b.len()
        invariant
            i <= a.len(),
            j <= b.len(),
            strictly_ascending(a@),
            strictly_ascending(b@),
            strictly_ascending(out@),
            forall|t: int| 0 <= t < out@.len() && i < a.len() ==> out@[t] < a@[i as int],
            forall|t: int| 0 <= t < out@.len() && j < b.len() ==> out@[t] < b@[j as int],
            forall|x: u32|
                out@.contains(x) <==> (a@.take(i as int).contains(x) || b@.take(j as int).contains(
                    x,
                )),
        decreases (a.len() - i) + (b.len() - j),
    {
        let ghost before = out@;
        let take_a: bool = j == b.len() || (i < a.len() && a[i] <= b[j]);
        let take_b: bool = i == a.len() || (j < b.len() && b[j] <= a[i]);
        let v: u32 = if take_a {
            a[i]
        } else {
            b[j]
        };
        out.push(v);
        proof {
            assert forall|x: u32|
                out@.contains(x) <==> (a@.take(i + if take_a {
                    1int
                } else {
                    0int
                }).contains(x) || b@.take(j + if take_b {
                    1int
                } else {
                    0int
                }).contains(x)) by {
                lemma_push_one_more(before, v, x);
                if take_a {
                    lemma_take_one_more(a@, i as int, x);
                }
                if take_b {
                    lemma_take_one_more(b@, j as int, x);
                }
            }
            assert forall|p: int, q: int| 0 <= p < q < out@.len() implies out@[p] < out@[q] by {
                if q < before.len() {
                    assert(before[p] < before[q]);
                }
            }
        }
        if take_a {
            i += 1;
        }
        if take_b {
            j += 1;
        }
    }
    proof {
        assert(a@.take(a.len() as int) =~= a@);
        assert(b@.take(b.len() as int) =~= b@);
    }
    out
}

/// The values of `values[lo..hi]` in ascending order, each once.
fn sorted_distinct_range(values: &Vec<u32>, lo: usize, hi: usize) -> (r: Vec<u32>)
    requires
        lo <= hi <= values@.len(),
    ensures
        strictly_ascending(r@),
        forall|x: u32| r@.contains(x) <==> values@.subrange(lo as int, hi as int).contains(x),
    decreases hi - lo,
{
    let mut out: Vec<u32> = Vec::new();
    if hi - lo == 0 {
        return out;
    }
    if hi - lo == 1 {
        out.push(values[lo]);
        proof {
            assert forall|x: u32|
                out@.contains(x) <==> values@.subrange(lo as int, hi as int).contains(x) by {
                if out@.contains(x) {
                    assert(values@.subrange(lo as int, hi as int)[0] == x);
                }
                if values@.subrange(lo as int, hi as int).contains(x) {
                    assert(out@[0] == x);
                }
            }
        }
        return out;
    }
    let mid: usize = lo + (hi - lo) / 2;
    let left = sorted_distinct_range(values, lo, mid);
    let right = sorted_distinct_range(values, mid, hi);
    let merged = merge_distinct(&left, &right);
    proof {
        assert forall|x: u32|
            merged@.contains(x) <==> values@.subrange(lo as int, hi as int).contains(x) by {
            lemma_split_range(values@, lo as int, mid as int, hi as int, x);
        }
    }
    merged
}

/// The values in ascending order, each once.
pub fn sorted_distinct(values: &Vec<u32>) -> (r: Vec<u32>)
    ensures
        strictly_ascending(r@),
        forall|x: u32| r@.contains(x) <==> values@.contains(x),
{
    assert(values@.subrange(0, values@.len() as int) =~= values@);
    sorted_distinct_range(values, 0, values.len())
}

} // verus!
