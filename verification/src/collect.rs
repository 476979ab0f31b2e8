//! The k-mer hashes of a sequence, and the ones among them below a bound.
use packed_seq::AsciiSeq;
use simd_minimizers::private::nthash::{nthash_seq_scalar, NtHasher};
use vstd::prelude::*;

verus! {

/// One of the eight letters `ACGTacgt`.
pub open spec fn is_base(c: u8) -> bool {
    c == 65 || c == 67 || c == 71 || c == 84 || c == 97 || c == 99 || c == 103 || c == 116
}

/// Every letter of the sequence is one of `ACGTacgt`.
pub open spec fn is_dna(seq: Seq<u8>) -> bool {
    forall|i: int| 0 <= i < seq.len() ==> is_base(#[trigger] seq[i])
}

/// Tells whether every letter of `seq` is one of `ACGTacgt`.
pub fn check_dna(seq: &[u8]) -> (r: bool)
    ensures
        r == is_dna(seq@),
{
    let mut i: usize = 0;
    while i < seq.len()
        invariant
            i <= seq.len(),
            forall|j: int| 0 <= j < i ==> is_base(#[trigger] seq@[j]),
        decreases seq.len() - i,
    {
        let c: u8 = seq[i];
        if !(c == 65 || c == 67 || c == 71 || c == 84 || c == 97 || c == 99 || c == 103 || c
            == 116) {
            return false;
        }
        i += 1;
    }
    true
}

/// The number of k-mers of a sequence of `len` letters.
pub open spec fn kmer_count(len: nat, k: nat) -> nat {
    if len >= k {
        (len - k + 1) as nat
    } else {
        0
    }
}

/// The 32-bit ntHash of every k-mer of `seq`, forward or canonical, in the
/// order of the k-mers in the sequence.
pub uninterp spec fn nthash_kmers(seq: Seq<u8>, k: nat, canonical: bool) -> Seq<u32>;

/// Calls `simd_minimizers::private::nthash::nthash_seq_scalar` with ntHash
/// as the letter hasher, on `seq` read as `packed_seq::AsciiSeq`, and
/// collects what its iterator yields. That iterator reads the letters by
/// index, within the slice.
///
/// Not proved: that the hashes are a function of the letters, `k` and the
/// strand mode alone, and that there is one per k-mer. Letters other than
/// `ACGTacgt` may make the hasher panic, and so does `k == 0`.
#[verifier::external_body]
pub(crate) fn hash_kmers<const RC: bool>(seq: &[u8], k: usize) -> (hashes: Vec<u32>)
    requires
        1 <= k <= u32::MAX,
        is_dna(seq@),
    ensures
        hashes@ == nthash_kmers(seq@, k as nat, RC),
        hashes@.len() == kmer_count(seq@.len(), k as nat),
{
    nthash_seq_scalar::<RC, NtHasher>(AsciiSeq(seq), k).collect()
}

/// The test that a hash passes to be collected under `bound`.
pub open spec fn is_below(bound: u32) -> spec_fn(u32) -> bool {
    |h: u32| h < bound
}

/// The hashes below `bound`, in their order, duplicates kept.
pub open spec fn below(hashes: Seq<u32>, bound: u32) -> Seq<u32> {
    hashes.filter(is_below(bound))
}

/// Replaces the contents of `out` by the hashes below `bound`.
pub fn keep_below(hashes: &Vec<u32>, bound: u32, out: &mut Vec<u32>)
    ensures
        final(out)@ == below(hashes@, bound),
{
    out.clear();
    let mut i: usize = 0;
    assert(hashes@.take(0) =~= Seq::<u32>::empty());
    proof {
        reveal(Seq::filter);
    }
    while i < hashes.len()
        invariant
            i <= hashes.len(),
            out@ == below(hashes@.take(i as int), bound),
        decreases hashes.len() - i,
    {
        let h: u32 = hashes[i];
        proof {
            hashes@.take(i as int).lemma_filter_push(h, is_below(bound));
            assert(hashes@.take(i as int).push(h) =~= hashes@.take(i + 1));
        }
        if h < bound {
            out.push(h);
        }
        i += 1;
    }
    assert(hashes@.take(hashes.len() as int) =~= hashes@);
}

/// Collects into `out` the hashes below `bound` of all k-mers of `seq`, of
/// which each has one.
pub fn collect_up_to_bound<const RC: bool>(seq: &[u8], k: usize, bound: u32, out: &mut Vec<u32>)
    requires
        1 <= k <= u32::MAX,
        is_dna(seq@),
    ensures
        final(out)@ == below(nthash_kmers(seq@, k as nat, RC), bound),
        nthash_kmers(seq@, k as nat, RC).len() == kmer_count(seq@.len(), k as nat),
{
    let hashes = hash_kmers::<RC>(seq, k);
    keep_below(&hashes, bound, out);
}

} // verus!
