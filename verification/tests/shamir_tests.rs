use sc_hsm_recrypt::field::FieldElement;
use sc_hsm_recrypt::shamir::{combine, split, split_with_coeffs, eval_poly, Share};
use sc_hsm_recrypt::RecryptError;

// A 64-bit prime: 2^64 - 59.
const P: u64 = 0xffffffffffffffc5;
const SECRET: u64 = 0x0102030405060708;

fn subset(shares: &[Share], picks: &[usize]) -> Vec<Share> {
    picks.iter().map(|&i| shares[i]).collect()
}

#[test]
fn split_three_of_five_and_combine_any_three() {
    let shares = split(SECRET, 3, 5, P).unwrap();
    assert_eq!(shares.len(), 5);
    for (k, s) in shares.iter().enumerate() {
        assert_eq!(s.identifier.retrieve(), (k + 1) as u64);
    }
    // every 3-subset of the 5 shares reconstructs the secret
    for a in 0..5 {
        for b in (a + 1)..5 {
            for c in (b + 1)..5 {
                let picked = subset(&shares, &[a, b, c]);
                let got = combine(&picked, P).unwrap();
                assert_eq!(got.retrieve(), SECRET);
            }
        }
    }
}

#[test]
fn reconstruction_does_not_depend_on_subset_choice() {
    let shares = split(SECRET, 2, 4, P).unwrap();
    let mut results = Vec::new();
    for a in 0..4 {
        for b in (a + 1)..4 {
            let picked = subset(&shares, &[a, b]);
            results.push(combine(&picked, P).unwrap().retrieve());
        }
    }
    for r in &results {
        assert_eq!(*r, results[0]);
        assert_eq!(*r, SECRET);
    }
}

#[test]
fn too_few_shares_give_a_different_value_not_an_error() {
    // fixed coefficients make the outcome deterministic:
    // poly = SECRET + 5 x + 7 x^2; two shares interpolate a line, not it
    let shares = split_with_coeffs(SECRET, &vec![5, 7], 3, 5, P).unwrap();
    let two = subset(&shares, &[0, 1]);
    let got = combine(&two, P).unwrap();
    assert_ne!(got.retrieve(), SECRET);
}

#[test]
fn split_rejects_total_under_threshold() {
    assert_eq!(split(SECRET, 4, 3, P), Err(RecryptError::InvalidThreshold));
}

#[test]
fn split_rejects_threshold_under_two() {
    assert_eq!(split(SECRET, 1, 5, P), Err(RecryptError::InvalidThreshold));
    assert_eq!(split(SECRET, 0, 5, P), Err(RecryptError::InvalidThreshold));
}

#[test]
fn combine_rejects_duplicate_identifiers() {
    let shares = split(SECRET, 2, 3, P).unwrap();
    let dup = vec![shares[0], shares[0]];
    assert_eq!(combine(&dup, P), Err(RecryptError::NotInvertible));
}

#[test]
fn combine_threshold_equals_total() {
    // t == n degenerates to needing every share; no special-casing
    let shares = split(SECRET, 4, 4, P).unwrap();
    let got = combine(&shares, P).unwrap();
    assert_eq!(got.retrieve(), SECRET);
}

#[test]
fn split_with_fixed_coeffs_evaluates_polynomial() {
    let shares = split_with_coeffs(3, &vec![4], 2, 3, 101).unwrap();
    // poly = 3 + 4 x over GF(101), identifiers 1, 2, 3
    assert_eq!(shares[0].identifier, FieldElement::Residue(1, 101));
    assert_eq!(shares[0].value, FieldElement::Residue(7, 101));
    assert_eq!(shares[1].value, FieldElement::Residue(11, 101));
    assert_eq!(shares[2].value, FieldElement::Residue(15, 101));
}

#[test]
fn eval_poly_matches_horner() {
    let poly: Vec<u64> = vec![3, 4, 5];
    // 3 + 4*10 + 5*100 = 543 = 38 (mod 101)
    assert_eq!(eval_poly(&poly, 10, 101), 543 % 101);
    let empty: Vec<u64> = Vec::new();
    assert_eq!(eval_poly(&empty, 10, 101), 0);
}

#[test]
fn combine_two_shares_of_a_line() {
    // poly = 42 + 10 x over GF(101): shares (1, 52), (2, 62)
    let shares = split_with_coeffs(42, &vec![10], 2, 2, 101).unwrap();
    assert_eq!(shares[0].value, FieldElement::Residue(52, 101));
    assert_eq!(shares[1].value, FieldElement::Residue(62, 101));
    assert_eq!(combine(&shares, 101).unwrap().retrieve(), 42);
}
