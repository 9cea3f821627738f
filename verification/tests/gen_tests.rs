use sketch_explorer::gen::{
    generate, pareto_micros, rng_from_seed, MIN_LATENCY_MICROS, MAX_LATENCY_MICROS,
};

#[test]
fn pareto_inversion_exact_values() {
    // the largest raw draw stands for a uniform value of one: exactly the
    // 10,000-microsecond unit scale
    assert_eq!(pareto_micros(u64::MAX), 10_000);
    // half the raw range stands for a uniform value of one half
    assert_eq!(pareto_micros(u64::MAX / 2), 20_000);
    // a zero raw draw saturates
    assert_eq!(pareto_micros(0), u64::MAX);
}

#[test]
fn generated_values_stay_inside_the_envelope() {
    let mut rng = rng_from_seed(123);
    let pts = generate(&mut rng, 500);
    assert!(pts.len() <= 500);
    assert!(!pts.is_empty());
    for v in &pts {
        assert!(*v > MIN_LATENCY_MICROS);
        assert!(*v < MAX_LATENCY_MICROS);
    }
}

#[test]
fn generation_is_deterministic_under_a_fixed_seed() {
    let mut a = rng_from_seed(9);
    let mut b = rng_from_seed(9);
    let mut c = rng_from_seed(10);
    let pa = generate(&mut a, 64);
    let pb = generate(&mut b, 64);
    let pc = generate(&mut c, 64);
    assert_eq!(pa, pb);
    assert_ne!(pa, pc);
}

#[test]
fn zero_requested_samples_is_a_no_op() {
    let mut rng = rng_from_seed(1);
    let pts = generate(&mut rng, 0);
    assert!(pts.is_empty());
}
