use sc_hsm_recrypt::codec::{fe_random, fe_to_be_bytes, u64_to_be_bytes};
use sc_hsm_recrypt::field::FieldElement;

#[test]
fn u64_encodes_big_endian() {
    assert_eq!(
        u64_to_be_bytes(0x0102030405060708),
        vec![1, 2, 3, 4, 5, 6, 7, 8]
    );
    assert_eq!(u64_to_be_bytes(0), vec![0; 8]);
    assert_eq!(u64_to_be_bytes(u64::MAX), vec![0xff; 8]);
    assert_eq!(u64_to_be_bytes(1), vec![0, 0, 0, 0, 0, 0, 0, 1]);
}

#[test]
fn element_serializes_its_canonical_value() {
    let e = FieldElement::new(0x0102030405060708, 0xffffffffffffffc5);
    assert_eq!(fe_to_be_bytes(&e), vec![1, 2, 3, 4, 5, 6, 7, 8]);
    let i = FieldElement::Integer(0xff00);
    assert_eq!(fe_to_be_bytes(&i), vec![0, 0, 0, 0, 0, 0, 0xff, 0]);
}

#[test]
fn random_element_is_a_plain_integer() {
    let r = fe_random();
    assert!(matches!(r, FieldElement::Integer(_)));
    // two draws almost surely differ; equality would mean a broken source
    let a = fe_random();
    let b = fe_random();
    let c = fe_random();
    assert!(a != b || b != c);
}
