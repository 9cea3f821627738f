use sketch_explorer::session::{SketchView, DIGEST_OVERHEAD_BYTES};

#[test]
fn empty_session_reports_degenerate_stats() {
    let s = SketchView::new_seeded("in", "out", 7);
    let input = s.get_input_stats();
    assert_eq!(input.value_count, 0);
    assert_eq!(input.in_memory_size, 0);
    let output = s.get_output_stats();
    assert_eq!(output.bin_count, 0);
    assert_eq!(output.in_memory_size, DIGEST_OVERHEAD_BYTES);
    assert_eq!(output.p50, 0);
    assert_eq!(output.p90, 0);
    assert_eq!(output.p99, 0);
}

#[test]
fn empty_session_histograms_are_empty_not_failures() {
    let s = SketchView::new_seeded("in", "out", 7);
    let ih = s.input_histogram(10);
    assert!(ih.buckets.is_empty());
    assert_eq!(ih.axis_min, 0);
    assert_eq!(ih.axis_max, 0);
    let oh = s.output_histogram();
    assert!(oh.buckets.is_empty());
    assert_eq!(oh.axis_min, 0);
    assert_eq!(oh.axis_max, 0);
}

#[test]
fn stats_are_idempotent_without_mutation() {
    let mut s = SketchView::new_seeded("in", "out", 11);
    s.sample(300);
    let a = s.get_input_stats();
    let b = s.get_input_stats();
    assert_eq!(a.value_count, b.value_count);
    assert_eq!(a.in_memory_size, b.in_memory_size);
    let x = s.get_output_stats();
    let y = s.get_output_stats();
    assert_eq!(x.bin_count, y.bin_count);
    assert_eq!(x.in_memory_size, y.in_memory_size);
    assert_eq!(x.p50, y.p50);
    assert_eq!(x.p90, y.p90);
    assert_eq!(x.p99, y.p99);
}

#[test]
fn value_count_grows_monotonically() {
    let mut s = SketchView::new_seeded("in", "out", 3);
    let mut last = s.get_input_stats().value_count;
    for _ in 0..5 {
        s.sample(50);
        let now = s.get_input_stats().value_count;
        assert!(now >= last);
        assert!(now <= last + 50);
        last = now;
    }
    s.sample(0);
    assert_eq!(s.get_input_stats().value_count, last);
    s.set_bin_limit(16);
    assert_eq!(s.get_input_stats().value_count, last);
}

#[test]
fn sampled_values_respect_the_latency_envelope() {
    let mut s = SketchView::new_seeded("in", "out", 5);
    s.sample(200);
    let h = s.input_histogram(40);
    // every accepted sample lies strictly inside (15_000, 1_000_000), so a
    // bucket's lower edge can never leave that envelope
    assert!(h.axis_min <= h.axis_max);
    assert!(h.axis_max < 1_000_000);
    for b in &h.buckets {
        let lower_edge = b.key * h.bin_width;
        assert!(lower_edge < 1_000_000);
    }
}

#[test]
fn reconfiguration_rebuilds_from_full_history() {
    let mut a = SketchView::new_seeded("in", "out", 42);
    let mut b = SketchView::new_seeded("in", "out", 42);
    a.sample(200);
    b.sample(200);
    // take a detour through other bin limits on one of the two sessions
    a.set_bin_limit(8);
    a.set_bin_limit(300);
    a.set_bin_limit(64);
    b.set_bin_limit(64);
    let sa = a.get_output_stats();
    let sb = b.get_output_stats();
    assert_eq!(sa.bin_count, sb.bin_count);
    assert_eq!(sa.p50, sb.p50);
    assert_eq!(sa.p90, sb.p90);
    assert_eq!(sa.p99, sb.p99);
}

#[test]
fn input_histogram_conserves_sample_mass() {
    let mut s = SketchView::new_seeded("in", "out", 9);
    s.sample(400);
    let count = s.get_input_stats().value_count;
    let h = s.input_histogram(16);
    let total: u64 = h.buckets.iter().map(|b| b.count).sum();
    assert_eq!(total as usize, count);
}

#[test]
fn output_histogram_conserves_bin_mass() {
    let mut s = SketchView::new_seeded("in", "out", 13);
    s.sample(400);
    s.set_bin_limit(12);
    let count = s.get_input_stats().value_count;
    let h = s.output_histogram();
    assert!(h.buckets.len() <= 12);
    let total: u64 = h.buckets.iter().map(|b| b.count).sum();
    // the digest counts every inserted sample exactly once, and the merge
    // loses none of that mass
    assert_eq!(total as usize, count);
}

#[test]
fn seeded_sampling_scenario() {
    let mut s = SketchView::new_seeded("input-canvas", "output-canvas", 1);
    s.sample(1000);
    let count = s.get_input_stats().value_count;
    assert!(count > 0);
    assert!(count <= 1000);
    s.set_bin_limit(128);
    let stats = s.get_output_stats();
    assert!(stats.bin_count <= 128);
    let p50 = stats.p50;
    assert!(p50 > 15_000 / 2 && p50 < 1_000_000);
    assert!(stats.p50 <= stats.p90);
    assert!(stats.p90 <= stats.p99);
}

#[test]
fn same_seed_same_samples_different_seed_different_samples() {
    let mut a = SketchView::new_seeded("in", "out", 77);
    let mut b = SketchView::new_seeded("in", "out", 77);
    let mut c = SketchView::new_seeded("in", "out", 78);
    a.sample(100);
    b.sample(100);
    c.sample(100);
    let ha = a.input_histogram(8);
    let hb = b.input_histogram(8);
    let hc = c.input_histogram(8);
    let pa: Vec<(u64, u64)> = ha.buckets.iter().map(|x| (x.key, x.count)).collect();
    let pb: Vec<(u64, u64)> = hb.buckets.iter().map(|x| (x.key, x.count)).collect();
    let pc: Vec<(u64, u64)> = hc.buckets.iter().map(|x| (x.key, x.count)).collect();
    assert_eq!(pa, pb);
    assert!(pa != pc || ha.bin_width != hc.bin_width);
}

#[test]
fn canvas_ids_are_retained() {
    let s = SketchView::new("left-canvas", "right-canvas");
    assert_eq!(s.input_canvas_id(), "left-canvas");
    assert_eq!(s.output_canvas_id(), "right-canvas");
}
