//! The stored form of a sketch: every retained 32-bit value cut down to its
//! low 32, 16 or 8 bits, or to its parity bit with 64 of them in a word.
use vstd::prelude::*;

verus! {

/// The largest 32-bit value. It fills the slots of a sketch for which the
/// sequence has no k-mer.
pub const SENTINEL: u32 = 0xffff_ffff;

/// A sketch at one of the four bit widths.
pub enum BitSketch {
    B32(Vec<u32>),
    B16(Vec<u16>),
    B8(Vec<u8>),
    B1(Vec<u64>),
}

/// No value is larger than a later one.
pub open spec fn ascending(v: Seq<u32>) -> bool {
    forall|i: int, j: int| 0 <= i <= j < v.len() ==> v[i] <= v[j]
}

/// Every value is smaller than each later one.
pub open spec fn strictly_ascending(v: Seq<u32>) -> bool {
    forall|i: int, j: int| 0 <= i < j < v.len() ==> v[i] < v[j]
}

/// Every value is below `2^b`, for a width `b` of 32, 16 or 8.
pub open spec fn fits_width(vals: Seq<u32>, b: usize) -> bool {
    forall|i: int|
        0 <= i < vals.len() ==> (b == 16 ==> #[trigger] vals[i] < 0x1_0000) && (b == 8 ==> vals[i]
            < 0x100)
}

/// Bit `i` of `w`, counted from the least significant one.
pub open spec fn bit_at(w: u64, i: int) -> bool {
    (w >> (i as u64)) & 1 == 1
}

/// The widths that a sketch of `len` values can be stored at: 32, 16, 8, and
/// 1 where `len` is a multiple of 64.
pub open spec fn supported_width(b: usize, len: nat) -> bool {
    b == 32 || b == 16 || b == 8 || (b == 1 && len % 64 == 0)
}

/// Tells whether `len` values can be stored at width `b`.
pub fn is_supported_width(b: usize, len: usize) -> (r: bool)
    ensures
        r == supported_width(b, len as nat),
{
    b == 32 || b == 16 || b == 8 || (b == 1 && len % 64 == 0)
}

proof fn lemma_low_16(x: u32)
    by (bit_vector)
    ensures
        x & 0xffff == x % 0x1_0000,
        x & 0xffff <= 0xffff,
{
}

proof fn lemma_low_8(x: u32)
    by (bit_vector)
    ensures
        x & 0xff == x % 0x100,
        x & 0xff <= 0xff,
{
}

proof fn lemma_low_1(x: u32)
    by (bit_vector)
    ensures
        x & 1 == x % 2,
        x & 1 <= 1,
{
}

proof fn lemma_or_shifted_bit(bits: u64, bit: u64, i: u64, j: u64)
    by (bit_vector)
    requires
        i < 64,
        j < 64,
        bit <= 1,
    ensures
        ((bits | (bit << i)) >> j) & 1 == (if j == i {
            ((bits >> j) & 1) | bit
        } else {
            (bits >> j) & 1
        }),
{
}

proof fn lemma_zero_has_no_bit(j: u64)
    by (bit_vector)
    requires
        j < 64,
    ensures
        (0u64 >> j) & 1 == 0,
{
}

proof fn lemma_or_with_clear_bit(a: u64, bit: u64)
    by (bit_vector)
    requires
        a & 1 == 0,
        bit <= 1,
    ensures
        (a & 1) | bit == bit,
{
}

proof fn lemma_top_bit(a: u64, b: u64)
    by (bit_vector)
    requires
        (a >> 63) & 1 == (b >> 63) & 1,
    ensures
        a >> 63 == b >> 63,
{
}

proof fn lemma_one_more_bit(a: u64, b: u64, n: u64)
    by (bit_vector)
    requires
        n < 63,
        a >> (n + 1) == b >> (n + 1),
        (a >> n) & 1 == (b >> n) & 1,
    ensures
        a >> n == b >> n,
{
}

proof fn lemma_bit_is_zero_or_one(w: u64)
    by (bit_vector)
    ensures
        w & 1 == 0 || w & 1 == 1,
{
}

proof fn lemma_same_bits_from(a: u64, b: u64, n: nat)
    requires
        n <= 63,
        forall|i: int| n <= i < 64 ==> bit_at(a, i) == bit_at(b, i),
    ensures
        a >> (n as u64) == b >> (n as u64),
    decreases 63 - n,
{
    assert(bit_at(a, n as int) == bit_at(b, n as int));
    lemma_bit_is_zero_or_one(a >> (n as u64));
    lemma_bit_is_zero_or_one(b >> (n as u64));
    if n == 63 {
        lemma_top_bit(a, b);
    } else {
        lemma_same_bits_from(a, b, n + 1);
        lemma_one_more_bit(a, b, n as u64);
    }
}

/// Two words with the same 64 bits are the same word.
pub proof fn lemma_bits_determine_word(a: u64, b: u64)
    requires
        forall|i: int| 0 <= i < 64 ==> bit_at(a, i) == bit_at(b, i),
    ensures
        a == b,
{
    lemma_same_bits_from(a, b, 0);
    assert(a >> 0 == a && b >> 0 == b) by (bit_vector);
}

impl BitSketch {
    /// The number of bits kept of each value.
    pub open spec fn width(&self) -> nat {
        match self {
            BitSketch::B32(_) => 32,
            BitSketch::B16(_) => 16,
            BitSketch::B8(_) => 8,
            BitSketch::B1(_) => 1,
        }
    }

    /// The number of values that the sketch stands for.
    pub open spec fn slots(&self) -> nat {
        match self {
            BitSketch::B32(v) => v@.len(),
            BitSketch::B16(v) => v@.len(),
            BitSketch::B8(v) => v@.len(),
            BitSketch::B1(w) => 64 * w@.len(),
        }
    }

    /// The stored entries as integers: one per value at widths 32, 16 and 8,
    /// one per word of 64 values at width 1.
    pub open spec fn entries(&self) -> Seq<int> {
        match self {
            BitSketch::B32(v) => Seq::new(v@.len(), |i: int| v@[i] as int),
            BitSketch::B16(v) => Seq::new(v@.len(), |i: int| v@[i] as int),
            BitSketch::B8(v) => Seq::new(v@.len(), |i: int| v@[i] as int),
            BitSketch::B1(w) => Seq::new(w@.len(), |i: int| w@[i] as int),
        }
    }

    /// The sketch is `vals` stored at width `b`: each value cut to its low
    /// `b` bits, in the same order; at width 1, bit `p mod 64` of word
    /// `p div 64` is the parity of value `p`.
    pub open spec fn encodes(&self, b: usize, vals: Seq<u32>) -> bool {
        match self {
            BitSketch::B32(v) => b == 32 && v@ == vals,
            BitSketch::B16(v) => {
                &&& b == 16
                &&& v@.len() == vals.len()
                &&& forall|i: int| 0 <= i < vals.len() ==> v@[i] as int == vals[i] as int % 0x1_0000
            },
            BitSketch::B8(v) => {
                &&& b == 8
                &&& v@.len() == vals.len()
                &&& forall|i: int| 0 <= i < vals.len() ==> v@[i] as int == vals[i] as int % 0x100
            },
            BitSketch::B1(w) => {
                &&& b == 1
                &&& vals.len() == 64 * w@.len()
                &&& forall|p: int|
                    0 <= p < vals.len() ==> bit_at(#[trigger] w@[p / 64], p % 64) == (vals[p] % 2
                        == 1)
            },
        }
    }

    /// Stores `vals` at width `b`.
    ///
    /// Any other width than 32, 16, 8 or 1, and width 1 for a number of
    /// values that is no multiple of 64, is a misuse that the caller has to
    /// rule out.
    pub fn new(b: usize, vals: Vec<u32>) -> (r: Self)
        requires
            supported_width(b, vals@.len()),
        ensures
            r.encodes(b, vals@),
            r.width() == b,
            r.slots() == vals@.len(),
    {
        if b == 32 {
            BitSketch::B32(vals)
        } else if b == 16 {
            let mut out: Vec<u16> = Vec::with_capacity(vals.len());
            let mut i: usize = 0;
            while i < vals.len()
                invariant
                    i <= vals.len(),
                    out@.len() == i,
                    forall|j: int| 0 <= j < i ==> out@[j] as int == vals@[j] as int % 0x1_0000,
                decreases vals.len() - i,
            {
                let x: u32 = vals[i];
                proof {
                    lemma_low_16(x);
                }
                out.push((x & 0xffff) as u16);
                i += 1;
            }
            BitSketch::B16(out)
        } else if b == 8 {
            let mut out: Vec<u8> = Vec::with_capacity(vals.len());
            let mut i: usize = 0;
            while i < vals.len()
                invariant
                    i <= vals.len(),
                    out@.len() == i,
                    forall|j: int| 0 <= j < i ==> out@[j] as int == vals@[j] as int % 0x100,
                decreases vals.len() - i,
            {
                let x: u32 = vals[i];
                proof {
                    lemma_low_8(x);
                }
                out.push((x & 0xff) as u8);
                i += 1;
            }
            BitSketch::B8(out)
        } else {
            let words: usize = vals.len() / 64;
            let mut out: Vec<u64> = Vec::with_capacity(words);
            let mut j: usize = 0;
            while j < words
                invariant
                    words == vals@.len() / 64,
                    vals@.len() % 64 == 0,
                    j <= words,
                    out@.len() == j,
                    forall|p: int|
                        0 <= p < 64 * j ==> bit_at(#[trigger] out@[p / 64], p % 64) == (vals@[p] % 2
                            == 1),
                decreases words - j,
            {
                let word: u64 = Self::parity_word(&vals, j);
                out.push(word);
                assert forall|p: int| 0 <= p < 64 * (j + 1) implies bit_at(
                    #[trigger] out@[p / 64],
                    p % 64,
                ) == (vals@[p] % 2 == 1) by {
                    if p >= 64 * j {
                        assert(p / 64 == j);
                        assert(p == 64 * j + p % 64);
                    }
                }
                j += 1;
            }
            BitSketch::B1(out)
        }
    }

    /// Values have one stored form at a width: two sketches that store the
    /// same values at the same width have the same entries.
    pub proof fn lemma_one_encoding(&self, other: &Self, b: usize, vals: Seq<u32>)
        requires
            self.encodes(b, vals),
            other.encodes(b, vals),
        ensures
            self.width() == other.width(),
            self.entries() == other.entries(),
    {
        if b == 1 {
            let x = self->B1_0@;
            let y = other->B1_0@;
            assert forall|j: int| 0 <= j < x.len() implies x[j] == y[j] by {
                assert forall|i: int| 0 <= i < 64 implies bit_at(x[j], i) == bit_at(y[j], i) by {
                    let p = 64 * j + i;
                    assert(p / 64 == j && p % 64 == i);
                    assert(bit_at(x[p / 64], p % 64) == (vals[p] % 2 == 1));
                    assert(bit_at(y[p / 64], p % 64) == (vals[p] % 2 == 1));
                }
                lemma_bits_determine_word(x[j], y[j]);
            }
        }
        assert(self.entries() =~= other.entries());
    }

    /// No stored entry is larger than a later one.
    pub open spec fn is_ascending(&self) -> bool {
        forall|i: int, j: int|
            0 <= i <= j < self.entries().len() ==> self.entries()[i] <= self.entries()[j]
    }

    /// Values that fit the width are stored as they are, so ascending
    /// values stay ascending. Cutting a value that does not fit can turn the
    /// order round.
    pub proof fn lemma_fitting_values_keep_order(&self, b: usize, vals: Seq<u32>)
        requires
            self.encodes(b, vals),
            b != 1,
            fits_width(vals, b),
        ensures
            self.entries().len() == vals.len(),
            forall|i: int| 0 <= i < vals.len() ==> self.entries()[i] == vals[i],
            ascending(vals) ==> self.is_ascending(),
    {
        assert forall|i: int| 0 <= i < vals.len() implies self.entries()[i] == vals[i] by {
            assert(b == 16 ==> vals[i] < 0x1_0000);
            assert(b == 8 ==> vals[i] < 0x100);
        }
    }

    /// The number of bits kept of each value.
    pub fn bits(&self) -> (b: usize)
        ensures
            b == self.width(),
    {
        match self {
            BitSketch::B32(_) => 32,
            BitSketch::B16(_) => 16,
            BitSketch::B8(_) => 8,
            BitSketch::B1(_) => 1,
        }
    }

    /// The number of stored entries.
    pub fn len(&self) -> (n: usize)
        ensures
            n == self.entries().len(),
    {
        match self {
            BitSketch::B32(v) => v.len(),
            BitSketch::B16(v) => v.len(),
            BitSketch::B8(v) => v.len(),
            BitSketch::B1(w) => w.len(),
        }
    }

    /// The stored entry at position `i`.
    pub fn entry(&self, i: usize) -> (e: u64)
        requires
            i < self.entries().len(),
        ensures
            e == self.entries()[i as int],
    {
        match self {
            BitSketch::B32(v) => v[i] as u64,
            BitSketch::B16(v) => v[i] as u64,
            BitSketch::B8(v) => v[i] as u64,
            BitSketch::B1(w) => w[i],
        }
    }

    /// The word whose bit `i` is the parity of value `64 * j + i`.
    fn parity_word(vals: &Vec<u32>, j: usize) -> (word: u64)
        requires
            64 * (j + 1) <= vals@.len(),
        ensures
            forall|i: int| 0 <= i < 64 ==> bit_at(word, i) == (vals@[64 * j + i] % 2 == 1),
    {
        let len: usize = vals.len();
        assert(64 * j + 64 <= len);
        let base: usize = 64 * j;
        let mut bits: u64 = 0;
        let mut i: usize = 0;
        proof {
            assert forall|t: int| 0 <= t < 64 implies !bit_at(0u64, t) by {
                lemma_zero_has_no_bit(t as u64);
            }
        }
        while i < 64
            invariant
                i <= 64,
                base == 64 * j,
                base + 64 <= vals@.len(),
                forall|t: int| 0 <= t < i ==> bit_at(bits, t) == (vals@[base + t] % 2 == 1),
                forall|t: int| i <= t < 64 ==> !bit_at(bits, t),
            decreases 64 - i,
        {
            let x: u32 = vals[base + i];
            let bit: u64 = (x & 1) as u64;
            let next: u64 = bits | (bit << (i as u64));
            proof {
                lemma_low_1(x);
                assert forall|t: int| 0 <= t < 64 implies bit_at(next, t) == (if t == i {
                    bit == 1
                } else {
                    bit_at(bits, t)
                }) by {
                    lemma_or_shifted_bit(bits, bit, i as u64, t as u64);
                    if t == i {
                        assert(!bit_at(bits, t));
                        let a: u64 = bits >> (t as u64);
                        assert(a & 1 == 0) by (bit_vector)
                            requires
                                !(a & 1 == 1),
                        ;
                        lemma_or_with_clear_bit(a, bit);
                    }
                }
            }
            bits = next;
            i += 1;
        }
        bits
    }
}

} // verus!
