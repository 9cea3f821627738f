use sketch_explorer::digest::Bin;
use sketch_explorer::histogram::{bin_samples, merge_bins, output_histogram_from_bins};

#[test]
fn bin_samples_groups_by_fixed_width() {
    let samples: Vec<u64> = vec![10, 20, 30];
    let h = bin_samples(&samples, 2);
    assert_eq!(h.bin_width, 10);
    let mut pairs: Vec<(u64, u64)> = h.buckets.iter().map(|b| (b.key, b.count)).collect();
    pairs.sort();
    assert_eq!(pairs, vec![(1, 1), (2, 1), (3, 1)]);
    assert_eq!(h.axis_min, 10);
    assert_eq!(h.axis_max, 30);
    assert_eq!(h.axis_max_count, 1);
}

#[test]
fn bin_samples_empty_input_is_degenerate() {
    let samples: Vec<u64> = vec![];
    let h = bin_samples(&samples, 5);
    assert!(h.buckets.is_empty());
    assert_eq!(h.axis_min, 0);
    assert_eq!(h.axis_max, 0);
    assert_eq!(h.axis_max_count, 1);
}

#[test]
fn bin_samples_equal_values_fall_back_to_unit_width() {
    let samples: Vec<u64> = vec![5, 5, 5];
    let h = bin_samples(&samples, 4);
    assert_eq!(h.bin_width, 1);
    assert_eq!(h.buckets.len(), 1);
    assert_eq!(h.buckets[0].key, 5);
    assert_eq!(h.buckets[0].count, 3);
    assert_eq!(h.axis_min, 5);
    assert_eq!(h.axis_max, 5);
    assert_eq!(h.axis_max_count, 3);
}

#[test]
fn bin_samples_zero_bucket_count_uses_one_bucket() {
    let samples: Vec<u64> = vec![10, 30];
    let h = bin_samples(&samples, 0);
    assert_eq!(h.bin_width, 31);
    assert_eq!(h.buckets.len(), 1);
    assert_eq!(h.buckets[0].key, 0);
    assert_eq!(h.buckets[0].count, 2);
}

#[test]
fn bin_samples_conserves_mass() {
    let samples: Vec<u64> = (0..100u64).map(|i| 15_000 + (i * 7919) % 900_000).collect();
    let h = bin_samples(&samples, 12);
    let total: u64 = h.buckets.iter().map(|b| b.count).sum();
    assert_eq!(total as usize, samples.len());
}

#[test]
fn merge_sums_colliding_keys() {
    let bins = vec![Bin { k: 5, n: 2 }, Bin { k: 7, n: 1 }, Bin { k: 5, n: 3 }];
    let merged = merge_bins(&bins);
    let pairs: Vec<(u32, u64)> = merged.iter().map(|b| (b.k, b.n)).collect();
    assert_eq!(pairs, vec![(5, 5), (7, 1)]);
}

#[test]
fn merge_conserves_mass() {
    let bins = vec![
        Bin { k: 48, n: 2 },
        Bin { k: 52, n: 4 },
        Bin { k: 48, n: 1 },
        Bin { k: 90, n: 7 },
    ];
    let before: u64 = bins.iter().map(|b| b.n).sum();
    let merged = merge_bins(&bins);
    let after: u64 = merged.iter().map(|b| b.n).sum();
    assert_eq!(before, after);
}

#[test]
fn output_histogram_attaches_bin_ranges_and_axis() {
    let bins = vec![Bin { k: 48, n: 2 }, Bin { k: 48, n: 1 }, Bin { k: 52, n: 4 }];
    let h = output_histogram_from_bins(&bins);
    assert_eq!(h.buckets.len(), 2);
    assert_eq!(h.buckets[0].key, 48);
    assert_eq!(h.buckets[0].count, 3);
    assert_eq!(h.buckets[0].lower, 32);
    assert_eq!(h.buckets[0].upper, 34);
    assert_eq!(h.buckets[1].key, 52);
    assert_eq!(h.buckets[1].count, 4);
    assert_eq!(h.buckets[1].lower, 40);
    assert_eq!(h.buckets[1].upper, 42);
    assert_eq!(h.axis_min, 32);
    assert_eq!(h.axis_max, 42);
    assert_eq!(h.axis_max_count, 4);
}

#[test]
fn output_histogram_empty_input_is_degenerate() {
    let bins: Vec<Bin> = vec![];
    let h = output_histogram_from_bins(&bins);
    assert!(h.buckets.is_empty());
    assert_eq!(h.axis_min, 0);
    assert_eq!(h.axis_max, 0);
    assert_eq!(h.axis_max_count, 0);
}
