use sketch_explorer::digest::{key_for, bin_lower, bin_upper, Digest, DEFAULT_BIN_LIMIT};

#[test]
fn key_encoding_exact_values() {
    assert_eq!(key_for(0), 0);
    assert_eq!(key_for(31), 31);
    assert_eq!(key_for(32), 48);
    assert_eq!(key_for(40), 52);
    assert_eq!(key_for(64), 80);
}

#[test]
fn bin_bounds_exact_values() {
    assert_eq!(bin_lower(48), 32);
    assert_eq!(bin_upper(48), 34);
    assert_eq!(bin_lower(52), 40);
    assert_eq!(bin_upper(52), 42);
    assert_eq!(bin_lower(5), 5);
    assert_eq!(bin_upper(5), 6);
}

#[test]
fn key_bin_contains_value() {
    for v in [1u64, 15_001, 20_000, 123_456, 999_999, 1_000_000, u64::MAX] {
        let k = key_for(v);
        assert!(bin_lower(k) <= v);
        assert!(v < bin_upper(k) || bin_upper(k) == u64::MAX);
    }
}

#[test]
fn digest_tracks_count_and_extremes() {
    let mut d = Digest::new();
    assert_eq!(d.bin_limit(), DEFAULT_BIN_LIMIT);
    assert_eq!(d.count(), 0);
    assert!(d.min().is_none());
    assert!(d.max().is_none());
    d.insert(40_000);
    d.insert(20_000);
    d.insert(900_000);
    assert_eq!(d.count(), 3);
    assert_eq!(d.min(), Some(20_000));
    assert_eq!(d.max(), Some(900_000));
    assert!(d.bin_count() >= 1);
}

#[test]
fn digest_collapse_obeys_bin_limit_and_keeps_mass() {
    let mut d = Digest::with_bin_limit(2);
    for i in 0..10u64 {
        d.insert(15_000 + i * 90_000);
    }
    assert_eq!(d.count(), 10);
    assert!(d.bin_count() <= 2);
    let mass: u64 = d.bins().iter().map(|b| b.n).sum();
    assert_eq!(mass, 10);
}

#[test]
fn quantile_of_empty_digest_is_undefined() {
    let d = Digest::new();
    assert!(d.quantile(500).is_none());
    assert!(d.quantile(990).is_none());
}

#[test]
fn quantile_of_single_value_is_that_value() {
    let mut d = Digest::new();
    d.insert(20_000);
    assert_eq!(d.quantile(0), Some(20_000));
    assert_eq!(d.quantile(500), Some(20_000));
    assert_eq!(d.quantile(1000), Some(20_000));
}

#[test]
fn quantile_walks_bins_by_rank() {
    let mut d = Digest::new();
    d.insert(100);
    d.insert(200);
    d.insert(200);
    // rank of the 50th percentile among three values is 1, which falls in
    // the bin of 200; the bin midpoint 204 is clamped to the maximum 200.
    assert_eq!(d.quantile(500), Some(200));
    // rank 0 falls in the bin of 100: midpoint 102.
    assert_eq!(d.quantile(0), Some(102));
}
