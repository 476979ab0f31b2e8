//! The bound under which hashes are collected, and how it grows between
//! attempts.
//!
//! With `n` k-mers hashed uniformly into 32 bits, the `s` smallest hashes are
//! expected below `floor(u32::MAX / n) * s`. An attempt collects below that
//! target times a scale; where too few hashes turn up, the scale grows and
//! the collection is made again. A bound of `u32::MAX` leaves nothing out
//! that a sketch could hold, so an attempt at that bound is the last.
use vstd::arithmetic::power2::{lemma2_to64, lemma_pow2_unfold, pow2};
use vstd::prelude::*;

verus! {

/// The expected distance between neighbouring hashes of `n` k-mers:
/// `floor(u32::MAX / n)`, and 0 where there is no k-mer.
pub open spec fn spacing(n: nat) -> nat {
    if n == 0 {
        0
    } else {
        (u32::MAX as nat) / n
    }
}

/// The bound for `n` k-mers, sketch size `s` and the given scale:
/// `spacing(n) * s * scale`, cut off at `u32::MAX`. Where the spacing is 0
/// no scale would ever raise the product, and the bound is `u32::MAX` at
/// once.
pub open spec fn bound_for(n: nat, s: nat, scale: nat) -> nat {
    if spacing(n) == 0 || spacing(n) * s * scale >= u32::MAX {
        u32::MAX as nat
    } else {
        spacing(n) * s * scale
    }
}

/// The scale of the next attempt: `scale + ceil((scale + 1) / 2)`.
pub open spec fn grown(scale: nat) -> nat {
    scale + (scale + 2) / 2
}

/// The scale after `rounds` failed attempts.
pub open spec fn scale_after(scale: nat, rounds: nat) -> nat
    decreases rounds,
{
    if rounds == 0 {
        scale
    } else {
        grown(scale_after(scale, (rounds - 1) as nat))
    }
}

/// Computes [`bound_for`].
pub fn collection_bound(n: usize, s: usize, scale: u64) -> (bound: u32)
    ensures
        bound == bound_for(n as nat, s as nat, scale as nat),
{
    if n == 0 || n as u64 > 0xffff_ffff {
        proof {
            if n != 0 {
                assert((u32::MAX as nat) / (n as nat) == 0) by (nonlinear_arith)
                    requires
                        n > 0xffff_ffff,
                ;
            }
        }
        return u32::MAX;
    }
    let step: u64 = 0xffff_ffff / (n as u64);
    assert(step == spacing(n as nat));
    assert(1 <= step <= 0xffff_ffff) by (nonlinear_arith)
        requires
            step == 0xffff_ffffu64 / (n as u64),
            1 <= n <= 0xffff_ffff,
    ;
    assert(step * s <= 0xffff_ffff * 0xffff_ffff_ffff_ffff) by (nonlinear_arith)
        requires
            0 <= step <= 0xffff_ffff,
            0 <= s <= 0xffff_ffff_ffff_ffff,
    ;
    let target: u128 = (step as u128) * (s as u128);
    if target == 0 {
        assert(spacing(n as nat) * (s as nat) * (scale as nat) == 0) by (nonlinear_arith)
            requires
                spacing(n as nat) * (s as nat) == 0,
        ;
        return 0;
    }
    if scale >= 0xffff_ffff {
        assert(target * scale >= 0xffff_ffff) by (nonlinear_arith)
            requires
                target >= 1,
                scale >= 0xffff_ffff,
        ;
        return u32::MAX;
    }
    assert(target * scale <= 0xffff_ffff * 0xffff_ffff_ffff_ffff * 0xffff_ffff)
        by (nonlinear_arith)
        requires
            0 <= target <= 0xffff_ffff * 0xffff_ffff_ffff_ffff,
            0 <= scale <= 0xffff_ffff,
    ;
    let wide: u128 = target * (scale as u128);
    if wide >= 0xffff_ffff {
        u32::MAX
    } else {
        wide as u32
    }
}

/// Computes [`grown`], for every scale whose successor fits in 64 bits.
pub fn grow_scale(scale: u64) -> (next: u64)
    requires
        grown(scale as nat) <= u64::MAX,
    ensures
        next == grown(scale as nat),
        next > scale,
{
    scale + (scale / 2 + 1)
}

/// An attempt that is not made at `u32::MAX` was made with a scale below
/// `u32::MAX`, for every sketch size but 0.
pub proof fn lemma_unsaturated_scale(n: nat, s: nat, scale: nat)
    requires
        s >= 1,
        bound_for(n, s, scale) < u32::MAX,
    ensures
        scale < u32::MAX,
{
    let t = spacing(n) * s;
    assert(t >= 1) by (nonlinear_arith)
        requires
            t == spacing(n) * s,
            spacing(n) >= 1,
            s >= 1,
    ;
    if scale >= u32::MAX {
        assert(t * scale >= u32::MAX) by (nonlinear_arith)
            requires
                t >= 1,
                scale >= u32::MAX,
        ;
    }
}

proof fn lemma_scale_doubles(scale: nat, pairs: nat)
    ensures
        scale_after(scale, 2 * pairs) + 1 >= pow2(pairs),
    decreases pairs,
{
    if pairs == 0 {
        lemma2_to64();
    } else {
        lemma_scale_doubles(scale, (pairs - 1) as nat);
        lemma_pow2_unfold(pairs);
        let x = scale_after(scale, (2 * (pairs - 1)) as nat);
        assert(scale_after(scale, (2 * pairs - 1) as nat) == grown(x));
        assert(scale_after(scale, 2 * pairs) == grown(grown(x)));
        assert(grown(grown(x)) >= 2 * x + 1);
    }
}

/// The growth ends: whatever the scale of the first attempt, the 65th
/// attempt at the latest is made at the bound `u32::MAX`, for every number of
/// k-mers and every sketch size but 0. No attempt is made at a larger bound.
pub proof fn lemma_growth_saturates(n: nat, s: nat, scale: nat)
    requires
        s >= 1,
    ensures
        bound_for(n, s, scale_after(scale, 64)) == u32::MAX,
        forall|any: nat| bound_for(n, s, any) <= u32::MAX,
{
    lemma_scale_doubles(scale, 32);
    lemma2_to64();
    let last = scale_after(scale, 64);
    assert(last >= u32::MAX);
    if bound_for(n, s, last) < u32::MAX {
        lemma_unsaturated_scale(n, s, last);
    }
}

} // verus!
