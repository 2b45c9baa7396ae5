use sc_hsm_recrypt::prime::{generate_min, generate_min_from};

#[test]
fn generated_prime_exceeds_bound_and_passes_primality_check() {
    let bound = 0x0102030405060708u64;
    let p = generate_min(bound).unwrap();
    assert!(p > bound);
    assert!(p >= 1u64 << 63);
    let candidate = crypto_bigint::U64::from_u64(p);
    assert!(crypto_primes::is_prime(
        crypto_primes::Flavor::Any,
        &candidate
    ));
}

#[test]
fn generation_exhausts_when_no_prime_can_exceed_the_bound() {
    assert_eq!(generate_min(u64::MAX), None);
}

#[test]
fn fixed_source_returns_first_candidate_over_bound() {
    let candidates: Vec<u64> = vec![5, 20, 30];
    assert_eq!(generate_min_from(&candidates, 10), Some(20));
    assert_eq!(generate_min_from(&candidates, 0), Some(5));
    assert_eq!(generate_min_from(&candidates, 29), Some(30));
}

#[test]
fn fixed_source_exhausts_when_no_candidate_qualifies() {
    let candidates: Vec<u64> = vec![2, 3, 5, 7];
    assert_eq!(generate_min_from(&candidates, 10), None);
    let empty: Vec<u64> = Vec::new();
    assert_eq!(generate_min_from(&empty, 0), None);
}

#[test]
fn fixed_source_stops_at_the_retry_budget() {
    // the only qualifying candidate sits just past the 1000-draw budget
    let mut candidates = vec![1u64; 1000];
    candidates.push(u64::MAX);
    assert_eq!(generate_min_from(&candidates, 10), None);
    // inside the budget it is found
    let mut inside = vec![1u64; 999];
    inside.push(u64::MAX);
    assert_eq!(generate_min_from(&inside, 10), Some(u64::MAX));
}
