//! The parameters of a sketch, and the two ways to sketch a sequence.
use crate::bins::{bin_attempt, bin_values, BinMash};
use crate::bottom::{
    bottom_attempt, bottom_values, lemma_bottom_values_ascending,
    lemma_bottom_values_without_hashes, BottomMash,
};
use crate::bound::{grow_scale, lemma_unsaturated_scale};
use crate::collect::{hash_kmers, is_dna, kmer_count, nthash_kmers};
use crate::hint::{new_hint, read_hint, write_hint};
use crate::sketch::{
    ascending, fits_width, is_supported_width, supported_width, BitSketch, SENTINEL,
};
use std::sync::atomic::AtomicUsize;
use vstd::prelude::*;

verus! {

/// The scale of the first attempt of the first sketch.
pub const INITIAL_SCALE: usize = 2;

/// The parameters of a sketch: k-mer length `k`, sketch size `s`, and the
/// number `b` of bits kept of each value. `RC` says whether k-mers are
/// hashed canonically, so that a sequence and its reverse complement get the
/// same sketch.
///
/// Sketching many similar sequences with one `Masher` saves attempts: it
/// remembers the scale that the last sketch needed.
pub struct Masher<const RC: bool> {
    k: usize,
    s: usize,
    b: usize,
    factor: AtomicUsize,
}

impl Masher<false> {
    /// Parameters for sketches of forward hashes.
    pub fn new(k: usize, s: usize, b: usize) -> (r: Self)
        ensures
            r.k() == k,
            r.s() == s,
            r.b() == b,
    {
        Masher::<false> { k, s, b, factor: new_hint(INITIAL_SCALE) }
    }
}

impl Masher<true> {
    /// Parameters for sketches of canonical hashes.
    pub fn new_rc(k: usize, s: usize, b: usize) -> (r: Self)
        ensures
            r.k() == k,
            r.s() == s,
            r.b() == b,
    {
        Masher::<true> { k, s, b, factor: new_hint(INITIAL_SCALE) }
    }
}

impl<const RC: bool> Masher<RC> {
    /// The k-mer length.
    pub closed spec fn spec_k(&self) -> usize {
        self.k
    }

    /// The sketch size.
    pub closed spec fn spec_s(&self) -> usize {
        self.s
    }

    /// The number of bits kept of each value.
    pub closed spec fn spec_b(&self) -> usize {
        self.b
    }

    /// The k-mer length.
    #[verifier::when_used_as_spec(spec_k)]
    pub fn k(&self) -> (k: usize)
        ensures
            k == self.k(),
    {
        self.k
    }

    /// The sketch size.
    #[verifier::when_used_as_spec(spec_s)]
    pub fn s(&self) -> (s: usize)
        ensures
            s == self.s(),
    {
        self.s
    }

    /// The number of bits kept of each value.
    #[verifier::when_used_as_spec(spec_b)]
    pub fn b(&self) -> (b: usize)
        ensures
            b == self.b(),
    {
        self.b
    }

    /// The parameters can be used: `k` is at least 1 and fits in 32 bits,
    /// and a sketch of `s` values can be stored at width `b`.
    pub open spec fn valid(&self) -> bool {
        &&& 1 <= self.k() <= u32::MAX
        &&& supported_width(self.b(), self.s() as nat)
    }

    /// Tells whether the parameters can be used.
    pub fn is_valid(&self) -> (r: bool)
        ensures
            r == self.valid(),
    {
        1 <= self.k && self.k <= 0xffff_ffff && is_supported_width(self.b, self.s)
    }

    /// The scale for a first attempt.
    fn first_scale(&self) -> u64 {
        read_hint(&self.factor) as u64
    }

    /// Remembers the scale of a last attempt.
    fn keep_scale(&self, scale: u64) {
        if scale <= usize::MAX as u64 {
            write_hint(&self.factor, scale as usize);
        } else {
            write_hint(&self.factor, usize::MAX);
        }
    }

    /// The values of the bottom sketch of `seq` with these parameters, before
    /// they are cut to `b` bits.
    pub open spec fn bottom_of(&self, seq: Seq<u8>) -> Seq<u32> {
        bottom_values(nthash_kmers(seq, self.k() as nat, RC), 0, self.s() as nat)
    }

    /// The values of the bin sketch of `seq` with these parameters, before
    /// they are cut to `b` bits.
    pub open spec fn bins_of(&self, seq: Seq<u8>) -> Seq<u32> {
        bin_values(nthash_kmers(seq, self.k() as nat, RC), self.s() as nat)
    }

    /// The bottom sketch of a sequence of the letters `ACGTacgt`: the `s`
    /// smallest distinct hashes of its k-mers in ascending order, filled up
    /// with the sentinel where the sequence has fewer, and stored at width
    /// `b`. A sequence shorter than `k` has no k-mer, and its sketch holds
    /// sentinels only.
    ///
    /// The stored values are ascending where the values fit the width. Cut
    /// to fewer bits than a value has, they need not be.
    ///
    /// Parameters that are not valid are a misuse that the caller has to
    /// rule out.
    pub fn bottom_mash(&self, seq: &[u8]) -> (mash: BottomMash)
        requires
            self.valid(),
            is_dna(seq@),
        ensures
            mash.rc == RC,
            mash.k == self.k(),
            mash.b == self.b(),
            mash.wf(),
            mash.bottom.slots() == self.s(),
            mash.bottom.encodes(self.b(), self.bottom_of(seq@)),
            ascending(self.bottom_of(seq@)),
            self.b() != 1 && fits_width(self.bottom_of(seq@), self.b())
                ==> mash.bottom.is_ascending(),
            nthash_kmers(seq@, self.k() as nat, RC).len() == kmer_count(
                seq@.len(),
                self.k() as nat,
            ),
            seq@.len() < self.k() ==> forall|i: int|
                0 <= i < self.s() ==> #[trigger] self.bottom_of(seq@)[i] == SENTINEL,
    {
        let hashes: Vec<u32> = hash_kmers::<RC>(seq, self.k);
        let mash = self.bottom_mash_of_hashes(&hashes);
        proof {
            if seq@.len() < self.k {
                lemma_bottom_values_without_hashes(hashes@, 0, self.s as nat);
            }
        }
        mash
    }

    /// The bottom sketch for the given k-mer hashes.
    pub fn bottom_mash_of_hashes(&self, hashes: &Vec<u32>) -> (mash: BottomMash)
        requires
            supported_width(self.b(), self.s() as nat),
        ensures
            mash.rc == RC,
            mash.k == self.k(),
            mash.b == self.b(),
            mash.wf(),
            mash.bottom.slots() == self.s(),
            mash.bottom.encodes(self.b(), bottom_values(hashes@, 0, self.s() as nat)),
            ascending(bottom_values(hashes@, 0, self.s() as nat)),
            self.b() != 1 && fits_width(bottom_values(hashes@, 0, self.s() as nat), self.b())
                ==> mash.bottom.is_ascending(),
    {
        let mut scale: u64 = self.first_scale();
        loop
            invariant
                supported_width(self.b(), self.s() as nat),
            decreases
                    (if scale < u32::MAX {
                        u32::MAX - scale
                    } else {
                        0
                    }),
        {
            match bottom_attempt(hashes, self.s, scale) {
                Some(values) => {
                    let ghost kept = values@;
                    proof {
                        lemma_bottom_values_ascending(hashes@, 0, self.s as nat);
                    }
                    let bottom = BitSketch::new(self.b, values);
                    proof {
                        if self.b != 1 && fits_width(kept, self.b) {
                            bottom.lemma_fitting_values_keep_order(self.b, kept);
                        }
                    }
                    return BottomMash { rc: RC, k: self.k, b: self.b, bottom };
                },
                None => {
                    proof {
                        lemma_unsaturated_scale(hashes@.len(), self.s as nat, scale as nat);
                    }
                    scale = grow_scale(scale);
                    self.keep_scale(scale);
                },
            }
        }
    }

    /// The bin sketch of a sequence of the letters `ACGTacgt`: for each of
    /// the `s` remainders modulo `s`, the smallest k-mer hash with that
    /// remainder divided by `s`, or the sentinel where there is none,
    /// stored at width `b`. A sequence shorter than `k` has no k-mer, and
    /// every bucket of its sketch holds the sentinel.
    ///
    /// Parameters that are not valid are a misuse that the caller has to
    /// rule out.
    pub fn bin_mash(&self, seq: &[u8]) -> (mash: BinMash)
        requires
            self.valid(),
            is_dna(seq@),
        ensures
            mash.rc == RC,
            mash.k == self.k(),
            mash.b == self.b(),
            mash.wf(),
            mash.bins.slots() == self.s(),
            mash.bins.encodes(self.b(), self.bins_of(seq@)),
            nthash_kmers(seq@, self.k() as nat, RC).len() == kmer_count(
                seq@.len(),
                self.k() as nat,
            ),
            seq@.len() < self.k() ==> forall|j: int|
                0 <= j < self.s() ==> #[trigger] self.bins_of(seq@)[j] == SENTINEL,
    {
        let hashes: Vec<u32> = hash_kmers::<RC>(seq, self.k);
        self.bin_mash_of_hashes(&hashes)
    }

    /// The bin sketch for the given k-mer hashes.
    pub fn bin_mash_of_hashes(&self, hashes: &Vec<u32>) -> (mash: BinMash)
        requires
            supported_width(self.b(), self.s() as nat),
        ensures
            mash.rc == RC,
            mash.k == self.k(),
            mash.b == self.b(),
            mash.wf(),
            mash.bins.slots() == self.s(),
            mash.bins.encodes(self.b(), bin_values(hashes@, self.s() as nat)),
    {
        let mut scale: u64 = self.first_scale();
        loop
            invariant
                supported_width(self.b(), self.s() as nat),
            decreases
                    (if scale < u32::MAX {
                        u32::MAX - scale
                    } else {
                        0
                    }),
        {
            match bin_attempt(hashes, self.s, scale) {
                Some(values) => {
                    let bins = BitSketch::new(self.b, values);
                    return BinMash { rc: RC, k: self.k, b: self.b, bins };
                },
                None => {
                    proof {
                        lemma_unsaturated_scale(hashes@.len(), self.s as nat, scale as nat);
                    }
                    scale = grow_scale(scale);
                    self.keep_scale(scale);
                },
            }
        }
    }
}

} // verus!
