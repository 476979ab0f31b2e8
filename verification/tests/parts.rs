use simd_mash::bins::bin_attempt;
use simd_mash::bottom::bottom_attempt;
use simd_mash::order::{merge_distinct, sorted_distinct};
use simd_mash::bound::{collection_bound, grow_scale};
use simd_mash::collect::keep_below;
use simd_mash::sketch::is_supported_width;
use simd_mash::{BinMash, BitSketch, BottomMash, Masher, Similarity, FM32};

fn b32(sketch: BitSketch) -> Vec<u32> {
    let BitSketch::B32(values) = sketch else {
        panic!()
    };
    values
}

fn bottom_of(b: usize, values: Vec<u32>) -> BottomMash {
    BottomMash { rc: false, k: 5, b, bottom: BitSketch::new(b, values) }
}

fn bins_of(b: usize, values: Vec<u32>) -> BinMash {
    BinMash { rc: true, k: 5, b, bins: BitSketch::new(b, values) }
}

#[test]
fn fastmod_is_the_remainder() {
    let reducer = FM32::new(7);
    assert_eq!(reducer.fastmod(23), 2);
    assert_eq!(reducer.fastdiv(23), 3);
    for d in [2u32, 3, 4, 5, 64, 1000, 10_000, 65_536, 1 << 31, (1 << 31) + 1, u32::MAX - 1, u32::MAX] {
        let reducer = FM32::new(d);
        for h in [0u32, 1, 2, d - 1, d, d.wrapping_add(1), 12_345_678, 1 << 31, u32::MAX - 1, u32::MAX] {
            assert_eq!(reducer.fastmod(h), (h % d) as usize);
            assert_eq!(reducer.fastdiv(h), (h / d) as usize);
        }
    }
}

#[test]
fn fastmod_and_fastdiv_give_the_hash_back() {
    let reducer = FM32::new(10_000);
    for h in (0..2000u32).map(|i| i.wrapping_mul(2_654_435_761)) {
        let back = reducer.fastdiv(h) * 10_000 + reducer.fastmod(h);
        assert_eq!(back, h as usize);
    }
}

#[test]
fn widths_are_checked() {
    assert!(is_supported_width(32, 5));
    assert!(is_supported_width(16, 5));
    assert!(is_supported_width(8, 5));
    assert!(is_supported_width(1, 0));
    assert!(is_supported_width(1, 64));
    assert!(is_supported_width(1, 640));
    assert!(!is_supported_width(1, 5));
    assert!(!is_supported_width(1, 63));
    assert!(!is_supported_width(2, 64));
    assert!(!is_supported_width(0, 64));
    assert!(!is_supported_width(24, 64));
}

#[test]
fn packing_keeps_the_low_bits() {
    let values = vec![0u32, 1, 0xffff, 0x1_0000, 0x1234_5678, u32::MAX];
    let BitSketch::B32(wide) = BitSketch::new(32, values.clone()) else {
        panic!()
    };
    assert_eq!(wide, values);
    let BitSketch::B16(half) = BitSketch::new(16, values.clone()) else {
        panic!()
    };
    assert_eq!(half, vec![0u16, 1, 0xffff, 0, 0x5678, 0xffff]);
    let BitSketch::B8(byte) = BitSketch::new(8, values.clone()) else {
        panic!()
    };
    assert_eq!(byte, vec![0u8, 1, 0xff, 0, 0x78, 0xff]);
    assert_eq!(BitSketch::new(16, values.clone()).len(), 6);
    assert_eq!(BitSketch::new(16, values.clone()).bits(), 16);
    assert_eq!(BitSketch::new(16, values).entry(4), 0x5678);
}

#[test]
fn packing_one_bit_takes_the_parity() {
    let mut values: Vec<u32> = (0..128).collect();
    values[64] = 0xffff_fffe;
    values[127] = 0x8000_0000;
    let BitSketch::B1(words) = BitSketch::new(1, values) else {
        panic!()
    };
    assert_eq!(words, vec![0xaaaa_aaaa_aaaa_aaaa, 0x2aaa_aaaa_aaaa_aaaa]);
    let BitSketch::B1(none) = BitSketch::new(1, vec![]) else {
        panic!()
    };
    assert_eq!(none, Vec::<u64>::new());
    let mut single = vec![2u32; 64];
    single[63] = 7;
    single[0] = 1;
    let BitSketch::B1(word) = BitSketch::new(1, single) else {
        panic!()
    };
    assert_eq!(word, vec![0x8000_0000_0000_0001]);
}

#[test]
fn cutting_values_that_fit_keeps_their_order() {
    let spread: Vec<u32> = (0..200u32).map(|i| i * 21_474_836).collect();
    assert!(spread.is_sorted());
    let to_16: Vec<u32> = spread.iter().map(|x| x >> 16).collect();
    let BitSketch::B16(half) = BitSketch::new(16, to_16.clone()) else {
        panic!()
    };
    assert!(half.is_sorted());
    assert_eq!(half.iter().map(|&x| x as u32).collect::<Vec<_>>(), to_16);
    let to_8: Vec<u32> = spread.iter().map(|x| x >> 24).collect();
    let BitSketch::B8(byte) = BitSketch::new(8, to_8.clone()) else {
        panic!()
    };
    assert!(byte.is_sorted());
    assert_eq!(byte.iter().map(|&x| x as u32).collect::<Vec<_>>(), to_8);
}

#[test]
fn cutting_values_that_do_not_fit_can_turn_the_order() {
    let BitSketch::B16(half) = BitSketch::new(16, vec![0x0000_ffff, 0x0001_0000]) else {
        panic!()
    };
    assert_eq!(half, vec![0xffff, 0]);
}

#[test]
fn keep_below_filters_in_order() {
    let hashes = vec![5u32, 100, 3, 100, 99, u32::MAX, 0, 5];
    let mut out = vec![1, 2, 3];
    keep_below(&hashes, 100, &mut out);
    assert_eq!(out, vec![5, 3, 99, 0, 5]);
    keep_below(&hashes, 0, &mut out);
    assert_eq!(out, Vec::<u32>::new());
    keep_below(&hashes, u32::MAX, &mut out);
    assert_eq!(out, vec![5, 100, 3, 100, 99, 0, 5]);
}

#[test]
fn merging_keeps_each_value_once() {
    assert_eq!(merge_distinct(&vec![1, 4, 9], &vec![2, 4, 5, 20]), vec![1, 2, 4, 5, 9, 20]);
    assert_eq!(merge_distinct(&vec![], &vec![3, 8]), vec![3, 8]);
    assert_eq!(merge_distinct(&vec![3, 8], &vec![]), vec![3, 8]);
    assert_eq!(merge_distinct(&vec![], &vec![]), Vec::<u32>::new());
    assert_eq!(merge_distinct(&vec![0, u32::MAX], &vec![0, u32::MAX]), vec![0, u32::MAX]);
}

#[test]
fn sorting_orders_the_values_and_drops_repeats() {
    assert_eq!(sorted_distinct(&vec![5, 1, 5, 2, 9, 1, 1]), vec![1, 2, 5, 9]);
    assert_eq!(sorted_distinct(&vec![]), Vec::<u32>::new());
    assert_eq!(sorted_distinct(&vec![4; 10]), vec![4]);
    assert_eq!(sorted_distinct(&vec![3, 2, 1]), vec![1, 2, 3]);
    for n in [1usize, 2, 3, 17, 1000, 4097] {
        let values: Vec<u32> = (0..n as u32).map(|i| i.wrapping_mul(2_654_435_761) % 3000).collect();
        let mut expected = values.clone();
        expected.sort_unstable();
        expected.dedup();
        assert_eq!(sorted_distinct(&values), expected);
    }
}

#[test]
fn collection_bound_follows_the_formula() {
    assert_eq!(collection_bound(100, 10, 2), 858_993_440);
    assert_eq!(collection_bound(100, 10, 0), 0);
    assert_eq!(collection_bound(100, 10, 10), 4_294_967_200);
    assert_eq!(collection_bound(100, 10, 11), u32::MAX);
    assert_eq!(collection_bound(100, 0, 1000), 0);
    assert_eq!(collection_bound(1, 1, 1), u32::MAX);
    assert_eq!(collection_bound(2, 1, 1), u32::MAX / 2);
    assert_eq!(collection_bound(0, 10, 2), u32::MAX);
    assert_eq!(collection_bound(3, usize::MAX, u64::MAX), u32::MAX);
    assert_eq!(collection_bound(1_000_000, 1000, 2), 8_588_000);
}

#[test]
fn scale_grows_by_half_rounded_up() {
    assert_eq!(grow_scale(0), 1);
    assert_eq!(grow_scale(1), 2);
    assert_eq!(grow_scale(2), 4);
    assert_eq!(grow_scale(3), 5);
    assert_eq!(grow_scale(4), 7);
    assert_eq!(grow_scale(100), 151);
    assert_eq!(grow_scale(u32::MAX as u64), 6_442_450_943);
    assert_eq!(grow_scale(1 << 40), (1 << 40) + (1 << 39) + 1);
    assert_eq!(grow_scale(12_297_829_382_473_034_409), u64::MAX - 1);
}

#[test]
fn growth_reaches_the_last_bound() {
    for (n, s) in [(1usize, 1usize), (1000, 1), (1000, 1000), (u32::MAX as usize, 1), (50_000_000, 3)] {
        let mut scale = 0u64;
        let mut rounds = 0;
        while collection_bound(n, s, scale) != u32::MAX {
            scale = grow_scale(scale);
            rounds += 1;
        }
        assert!(rounds <= 64);
    }
}

#[test]
fn bottom_attempt_succeeds_once_the_bound_is_large_enough() {
    let hashes = vec![50u32, 7, 7, 4_000_000_000, 12, 50, 3, 999, 12];
    // Nine hashes: the bound is 477_218_588 * s * scale.
    assert_eq!(bottom_attempt(&hashes, 4, 0), None);
    assert_eq!(bottom_attempt(&hashes, 4, 1), Some(vec![3, 7, 12, 50]));
    assert_eq!(bottom_attempt(&hashes, 4, 2), Some(vec![3, 7, 12, 50]));
    assert_eq!(bottom_attempt(&hashes, 6, 1), None);
    assert_eq!(bottom_attempt(&hashes, 6, 2), Some(vec![3, 7, 12, 50, 999, 4_000_000_000]));
    assert_eq!(bottom_attempt(&hashes, 8, 1), None);
    assert_eq!(
        bottom_attempt(&hashes, 8, 2),
        Some(vec![3, 7, 12, 50, 999, 4_000_000_000, u32::MAX, u32::MAX])
    );
    assert_eq!(bottom_attempt(&hashes, 0, 0), Some(vec![]));
    assert_eq!(bottom_attempt(&vec![], 2, 0), Some(vec![u32::MAX, u32::MAX]));
    // Two hashes: the bound is 2_147_483_647 * 2 * scale, one short of the last at scale 1.
    assert_eq!(bottom_attempt(&vec![u32::MAX, 5], 2, 0), None);
    assert_eq!(bottom_attempt(&vec![u32::MAX, 5], 2, 1), None);
    assert_eq!(bottom_attempt(&vec![u32::MAX, 5], 2, 2), Some(vec![5, u32::MAX]));
    // Enough hashes below the bound, but too few distinct ones.
    assert_eq!(bottom_attempt(&vec![1, 1, 1, 4_000_000_000], 2, 1), None);
}

#[test]
fn bottom_sketch_takes_the_smallest_distinct_hashes() {
    let hashes = vec![50u32, 7, 7, 4_000_000_000, 12, 50, 3, 999, 12];
    let sketch = |s: usize| b32(Masher::new(1, s, 32).bottom_mash_of_hashes(&hashes).bottom);
    assert_eq!(sketch(4), vec![3, 7, 12, 50]);
    assert_eq!(sketch(6), vec![3, 7, 12, 50, 999, 4_000_000_000]);
    assert_eq!(sketch(8), vec![3, 7, 12, 50, 999, 4_000_000_000, u32::MAX, u32::MAX]);
    assert_eq!(sketch(0), Vec::<u32>::new());
    let mash = Masher::new_rc(9, 3, 16).bottom_mash_of_hashes(&vec![0x1_0005, 2]);
    assert!(mash.rc);
    assert_eq!((mash.k, mash.b), (9, 16));
    let BitSketch::B16(narrow) = mash.bottom else {
        panic!()
    };
    assert_eq!(narrow, vec![2, 5, 0xffff]);
}

#[test]
fn bottom_sketch_does_not_depend_on_the_order() {
    let hashes: Vec<u32> = (0..5000u32).map(|i| i.wrapping_mul(2_654_435_761)).collect();
    let mut reversed = hashes.clone();
    reversed.reverse();
    let mut sorted = hashes.clone();
    sorted.sort();
    let masher = Masher::new(1, 100, 32);
    assert_eq!(b32(masher.bottom_mash_of_hashes(&hashes).bottom), sorted[..100].to_vec());
    assert_eq!(b32(masher.bottom_mash_of_hashes(&reversed).bottom), sorted[..100].to_vec());
}

#[test]
fn bin_attempt_succeeds_once_every_bucket_is_filled() {
    let hashes = vec![50u32, 7, 7, 4_000_000_000, 12, 50, 3, 999, 13];
    // Buckets mod 4: 0 -> {4_000_000_000, 12}, 1 -> {13}, 2 -> {50}, 3 -> {7, 3, 999}.
    assert_eq!(bin_attempt(&hashes, 4, 0), None);
    assert_eq!(bin_attempt(&hashes, 4, 1), Some(vec![3, 3, 12, 0]));
    assert_eq!(bin_attempt(&hashes, 4, 3), Some(vec![3, 3, 12, 0]));
    // Buckets mod 5: 0 -> {50, 4_000_000_000}, 1 -> {}, 2 -> {7, 12}, 3 -> {3, 13}, 4 -> {999}.
    assert_eq!(bin_attempt(&hashes, 5, 1), None);
    assert_eq!(bin_attempt(&hashes, 5, 2), Some(vec![10, u32::MAX, 1, 0, 199]));
    assert_eq!(bin_attempt(&hashes, 1, 0), None);
    assert_eq!(bin_attempt(&hashes, 1, 1), Some(vec![3]));
    assert_eq!(bin_attempt(&hashes, 0, 0), Some(vec![]));
    assert_eq!(bin_attempt(&vec![], 1, 0), Some(vec![u32::MAX]));
    assert_eq!(bin_attempt(&vec![], 3, 0), Some(vec![u32::MAX; 3]));
    // A bucket without a hash holds the sentinel, not its quotient.
    assert_eq!(bin_attempt(&vec![5], 3, 1), Some(vec![u32::MAX, u32::MAX, 1]));
    // The largest hash but one: its quotient is not taken for an empty bucket.
    assert_eq!(bin_attempt(&vec![u32::MAX - 1], 2, 1), Some(vec![u32::MAX / 2, u32::MAX]));
    assert_eq!(bin_attempt(&vec![u32::MAX], 2, 1), Some(vec![u32::MAX, u32::MAX]));
}

#[test]
fn bin_sketch_takes_the_smallest_hash_of_each_bucket() {
    let hashes = vec![50u32, 7, 7, 4_000_000_000, 12, 50, 3, 999, 13];
    let sketch = |s: usize| b32(Masher::new(1, s, 32).bin_mash_of_hashes(&hashes).bins);
    assert_eq!(sketch(4), vec![3, 3, 12, 0]);
    assert_eq!(sketch(5), vec![10, u32::MAX, 1, 0, 199]);
    assert_eq!(sketch(1), vec![3]);
    assert_eq!(sketch(0), Vec::<u32>::new());
    let mash = Masher::new_rc(9, 4, 8).bin_mash_of_hashes(&vec![1024, 5, 6, 7]);
    assert!(mash.rc);
    assert_eq!((mash.k, mash.b), (9, 8));
    let BitSketch::B8(narrow) = mash.bins else {
        panic!()
    };
    assert_eq!(narrow, vec![0, 1, 1, 1]);
}

#[test]
fn every_attempt_at_the_last_bound_succeeds() {
    let hashes: Vec<u32> = (0..50u32).map(|i| i.wrapping_mul(2_654_435_761)).collect();
    for s in [1usize, 7, 50, 51, 5000] {
        assert!(bottom_attempt(&hashes, s, u64::MAX).is_some());
        assert!(bin_attempt(&hashes, s, u64::MAX).is_some());
        let mut scale = 0;
        let mut rounds = 0;
        while bottom_attempt(&hashes, s, scale).is_none() {
            scale = grow_scale(scale);
            rounds += 1;
        }
        assert!(rounds <= 64);
    }
}

#[test]
fn bottom_similarity_counts_the_matches_of_a_merge() {
    let a = bottom_of(32, vec![1, 3, 5, 7, 9, 11]);
    let b = bottom_of(32, vec![2, 3, 4, 7, 8, 9]);
    assert!(a.is_comparable(&b));
    // The merge passes 1, 2, 3 (match), 4, 5, 7 (match) in its six steps.
    assert_eq!(a.similarity(&b), Similarity { num: 2, den: 6 });
    assert_eq!(b.similarity(&a), Similarity { num: 2, den: 6 });
    assert_eq!(a.similarity(&a), Similarity { num: 6, den: 6 });
    let c = bottom_of(32, vec![100, 200, 300, 400, 500, 600]);
    assert_eq!(a.similarity(&c), Similarity { num: 0, den: 6 });
    let narrow_a = bottom_of(16, vec![1, 3, 5, 7, 9, 11]);
    let narrow_b = bottom_of(16, vec![2, 3, 4, 7, 8, 9]);
    assert_eq!(narrow_a.similarity(&narrow_b), Similarity { num: 2, den: 6 });
    let byte_a = bottom_of(8, vec![1, 3, 5, 7, 9, 11]);
    assert_eq!(byte_a.similarity(&byte_a), Similarity { num: 6, den: 6 });
}

#[test]
fn sketches_of_other_parameters_are_not_comparable() {
    let a = bottom_of(32, vec![1, 2, 3]);
    assert!(!a.is_comparable(&bottom_of(32, vec![1, 2])));
    assert!(!a.is_comparable(&bottom_of(16, vec![1, 2, 3])));
    assert!(!a.is_comparable(&BottomMash { rc: true, k: 5, b: 32, bottom: BitSketch::new(32, vec![1, 2, 3]) }));
    assert!(!a.is_comparable(&BottomMash { rc: false, k: 6, b: 32, bottom: BitSketch::new(32, vec![1, 2, 3]) }));
    let bits = bottom_of(1, vec![0; 64]);
    assert!(!bits.is_comparable(&bits));
    let c = bins_of(1, vec![0; 64]);
    assert!(c.is_comparable(&c));
    assert!(!c.is_comparable(&bins_of(1, vec![0; 128])));
    assert!(!c.is_comparable(&bins_of(8, vec![0; 64])));
    assert!(!c.is_comparable(&BinMash { rc: false, k: 5, b: 1, bins: BitSketch::new(1, vec![0; 64]) }));
}

#[test]
fn bin_similarity_counts_equal_buckets() {
    let a = bins_of(32, vec![1, 3, 5, 7, 9, 11]);
    let b = bins_of(32, vec![1, 4, 5, 7, 8, 10]);
    assert_eq!(a.similarity(&b), Similarity { num: 3, den: 6 });
    assert_eq!(b.similarity(&a), Similarity { num: 3, den: 6 });
    assert_eq!(a.similarity(&a), Similarity { num: 6, den: 6 });
    let narrow_a = bins_of(8, vec![0x101, 3, 5]);
    let narrow_b = bins_of(8, vec![1, 4, 0x705]);
    assert_eq!(narrow_a.similarity(&narrow_b), Similarity { num: 2, den: 3 });
}

#[test]
fn one_bit_similarity_is_rescaled() {
    let zeros = bins_of(1, vec![0; 64]);
    let ones = bins_of(1, vec![1; 64]);
    let mut quarter = vec![0u32; 64];
    for value in quarter.iter_mut().take(16) {
        *value = 1;
    }
    let quarter = bins_of(1, quarter);
    assert_eq!(zeros.similarity(&zeros), Similarity { num: 64, den: 64 });
    assert_eq!(zeros.similarity(&ones), Similarity { num: -64, den: 64 });
    // 48 of 64 bits agree: 2 * 48 - 64 = 32.
    assert_eq!(zeros.similarity(&quarter), Similarity { num: 32, den: 64 });
    assert_eq!(quarter.similarity(&zeros), Similarity { num: 32, den: 64 });
    // 16 of 64 bits agree: 2 * 16 - 64 = -32.
    assert_eq!(ones.similarity(&quarter), Similarity { num: -32, den: 64 });
    let long_a = bins_of(1, (0..192).collect());
    let long_b = bins_of(1, (0..192).map(|i| if i < 96 { i } else { i + 1 }).collect());
    assert_eq!(long_a.similarity(&long_b), Similarity { num: 0, den: 192 });
}
