//! Division-free reduction of 32-bit hashes by a fixed divisor.
//!
//! For a divisor `d` the reducer keeps the 64-bit multiplier
//! `m = floor(2^64 / d) + 1`. A remainder then costs two multiplications and
//! a quotient one, all in 64x64 -> 128-bit integer arithmetic.
use vstd::arithmetic::div_mod::{
    lemma_fundamental_div_mod, lemma_fundamental_div_mod_converse_div,
    lemma_fundamental_div_mod_converse_mod,
};
use vstd::prelude::*;

verus! {

/// `2^64`, the modulus of 64-bit wrapping arithmetic.
pub open spec fn pow64() -> int {
    0x1_0000_0000_0000_0000
}

/// The multiplier that belongs to divisor `d`: `floor(2^64 / d) + 1`.
pub open spec fn magic(d: int) -> int {
    pow64() / d + 1
}

/// What [`FM32::fastmod`] computes, written out: the low 64 bits of `m * h`,
/// times `d`, shifted right by 64.
pub open spec fn reduce_formula(d: int, h: int) -> int {
    (((magic(d) * h) % pow64()) * d) / pow64()
}

/// What [`FM32::fastdiv`] computes, written out: `m * h` shifted right by 64.
pub open spec fn undo_formula(d: int, h: int) -> int {
    (magic(d) * h) / pow64()
}

/// The two multiply-and-shift formulas are exact: for every divisor
/// `2 <= d < 2^32` and every 32-bit `h`, the reduction is `h mod d` and its
/// paired transform is `h div d`.
pub proof fn lemma_fastmod_exact(d: int, h: int)
    requires
        2 <= d <= u32::MAX,
        0 <= h <= u32::MAX,
    ensures
        reduce_formula(d, h) == h % d,
        undo_formula(d, h) == h / d,
        magic(d) * h == (h / d) * pow64() + (magic(d) * h) % pow64(),
{
    let p = pow64();
    let m = magic(d);
    let t = p / d;
    let rem = p % d;
    lemma_fundamental_div_mod(p, d);
    let e = d - rem;
    assert(m * d == p + e) by (nonlinear_arith)
        requires
            m == t + 1,
            p == d * t + rem,
            e == d - rem,
    ;
    let q = h / d;
    let r = h % d;
    lemma_fundamental_div_mod(h, d);
    assert(0 <= q) by (nonlinear_arith)
        requires
            h == d * q + r,
            0 <= h,
            r < d,
            d > 0,
    ;
    assert(1 <= m) by (nonlinear_arith)
        requires
            m == t + 1,
            p == d * t + rem,
            rem < d,
            d > 0,
            p > 0,
    ;
    let x = q * e + m * r;
    assert(m * h == q * p + x) by (nonlinear_arith)
        requires
            h == d * q + r,
            m * d == p + e,
            x == q * e + m * r,
    ;
    assert(x * d == r * p + e * h) by (nonlinear_arith)
        requires
            h == d * q + r,
            m * d == p + e,
            x == q * e + m * r,
    ;
    assert(0 <= e * h < p) by (nonlinear_arith)
        requires
            1 <= e <= d,
            d <= 0xffff_ffff,
            0 <= h <= 0xffff_ffff,
            p == 0x1_0000_0000_0000_0000,
    ;
    assert(0 <= x) by (nonlinear_arith)
        requires
            0 <= q,
            1 <= e,
            1 <= m,
            0 <= r,
            x == q * e + m * r,
    ;
    assert(x < p) by (nonlinear_arith)
        requires
            x * d == r * p + e * h,
            e * h < p,
            0 <= r <= d - 1,
            d >= 2,
            p > 0,
    ;
    lemma_fundamental_div_mod_converse_div(m * h, p, q, x);
    lemma_fundamental_div_mod_converse_mod(m * h, p, q, x);
    lemma_fundamental_div_mod_converse_div(x * d, p, r, e * h);
}

/// A reducer for one fixed divisor.
#[derive(Copy, Clone, Debug)]
pub struct FM32 {
    d: u64,
    m: u64,
}

impl FM32 {
    /// The divisor this reducer was built for.
    pub closed spec fn divisor(self) -> int {
        self.d as int
    }

    /// The stored multiplier.
    pub closed spec fn multiplier(self) -> int {
        self.m as int
    }

    /// The multiplier belongs to the divisor, and the divisor is one for
    /// which the multiplier fits in 64 bits.
    pub open spec fn wf(self) -> bool {
        &&& 2 <= self.divisor() <= u32::MAX
        &&& self.multiplier() == magic(self.divisor())
    }

    /// Precomputes the multiplier for divisor `d`.
    ///
    /// For `d < 2` the multiplier `floor(2^64 / d) + 1` has no 64-bit value.
    pub fn new(d: u32) -> (r: Self)
        requires
            d >= 2,
        ensures
            r.wf(),
            r.divisor() == d,
    {
        let p: u128 = 0x1_0000_0000_0000_0000u128;
        let t: u128 = p / (d as u128);
        assert(t <= 0x8000_0000_0000_0000u128) by (nonlinear_arith)
            requires
                t == 0x1_0000_0000_0000_0000u128 / (d as u128),
                d >= 2,
        ;
        let m: u128 = t + 1;
        Self { d: d as u64, m: m as u64 }
    }

    /// `h mod d`, as `((m * h) mod 2^64) * d >> 64`.
    pub fn fastmod(self, h: u32) -> (r: usize)
        requires
            self.wf(),
        ensures
            r == reduce_formula(self.divisor(), h as int),
            r == h as int % self.divisor(),
            r < self.divisor(),
    {
        let lowbits: u64 = self.m.wrapping_mul(h as u64);
        proof {
            lemma_fastmod_exact(self.d as int, h as int);
            assert(lowbits as int == (self.m as int * h as int) % pow64());
            assert(lowbits as int * self.d as int <= 0xffff_ffff_ffff_ffff * 0xffff_ffff)
                by (nonlinear_arith)
                requires
                    0 <= lowbits <= 0xffff_ffff_ffff_ffff,
                    0 <= self.d <= 0xffff_ffff,
            ;
        }
        let wide: u128 = (lowbits as u128) * (self.d as u128);
        let high: u128 = wide >> 64;
        assert(high == wide / 0x1_0000_0000_0000_0000u128) by (bit_vector)
            requires
                high == wide >> 64,
        ;
        high as usize
    }

    /// `h div d`, as `m * h >> 64`.
    pub fn fastdiv(self, h: u32) -> (r: usize)
        requires
            self.wf(),
        ensures
            r == undo_formula(self.divisor(), h as int),
            r == h as int / self.divisor(),
            r <= h,
    {
        proof {
            lemma_fastmod_exact(self.d as int, h as int);
            assert(self.m as int * h as int <= 0xffff_ffff_ffff_ffff * 0xffff_ffff)
                by (nonlinear_arith)
                requires
                    0 <= self.m <= 0xffff_ffff_ffff_ffff,
                    0 <= h <= 0xffff_ffff,
            ;
            assert(h as int / self.d as int <= h as int) by (nonlinear_arith)
                requires
                    self.d >= 2,
                    h >= 0,
            ;
        }
        let wide: u128 = (self.m as u128) * (h as u128);
        let high: u128 = wide >> 64;
        assert(high == wide / 0x1_0000_0000_0000_0000u128) by (bit_vector)
            requires
                high == wide >> 64,
        ;
        high as usize
    }
}

} // verus!
