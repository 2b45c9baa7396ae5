use aes::cipher::block_padding::Pkcs7;
use aes::cipher::{BlockModeEncrypt, KeyIvInit};
use sc_hsm_recrypt::codec::fe_to_be_bytes;
use sc_hsm_recrypt::field::FieldElement;
use sc_hsm_recrypt::kdf::derive_key_iv_with_iterations;
use sc_hsm_recrypt::prime::generate_min;
use sc_hsm_recrypt::record::{decrypt_record_with_iterations, parse_record};
use sc_hsm_recrypt::shamir::{combine, split, Share};
use sc_hsm_recrypt::workflow::run_recovery;
use sc_hsm_recrypt::RecryptError;

const P: u64 = 0xffffffffffffffc5;
const SECRET: u64 = 0x0102030405060708;

fn three_shares() -> Vec<Share> {
    let shares = split(SECRET, 3, 5, P).unwrap();
    shares[0..3].to_vec()
}

#[test]
fn recovery_rejects_record_of_wrong_size() {
    let shares = three_shares();
    let record = vec![0u8; 32];
    assert!(matches!(
        run_recovery(&shares, P, &record, 3, 5),
        Err(RecryptError::RecordWrongLength)
    ));
}

#[test]
fn recovery_rejects_record_with_bad_magic() {
    let shares = three_shares();
    let mut record = vec![0u8; 64];
    record[0..8].copy_from_slice(b"NotSalt_");
    assert!(matches!(
        run_recovery(&shares, P, &record, 3, 5),
        Err(RecryptError::RecordBadMagic)
    ));
}

#[test]
fn recovery_rejects_duplicate_share_identifiers() {
    let shares = split(SECRET, 2, 3, P).unwrap();
    let dup = vec![shares[0], shares[0]];
    let mut record = vec![0u8; 64];
    record[0..8].copy_from_slice(b"Salted__");
    assert!(matches!(
        run_recovery(&dup, P, &record, 2, 3),
        Err(RecryptError::NotInvertible)
    ));
}

#[test]
fn duplicate_identifier_share_is_constructible() {
    // shares with equal identifiers are representable; combine, not the
    // type, rejects them
    let a = Share {
        identifier: FieldElement::new(1, P),
        value: FieldElement::new(7, P),
    };
    let b = Share {
        identifier: FieldElement::new(1, P),
        value: FieldElement::new(9, P),
    };
    assert_eq!(a.identifier, b.identifier);
    assert_ne!(a.value, b.value);
}

// The whole pipeline, step by step, at a test-sized iteration count:
// combine a quorum, verify against a freshly built backup record, draw a
// larger prime, re-split the same secret, and recover it again.
#[test]
fn end_to_end_recovery_and_resharing() {
    let iters = 200u64;
    let payload = [0x5au8; 32];
    let salt = [9u8, 8, 7, 6, 5, 4, 3, 2];

    // split the secret 3-of-5 and keep three shares
    let shares = split(SECRET, 3, 5, P).unwrap();
    let quorum = shares[1..4].to_vec();
    let combined = combine(&quorum, P).unwrap();
    assert_eq!(combined.retrieve(), SECRET);

    // a backup record encrypted under the secret's derived key
    let secret_bytes = fe_to_be_bytes(&combined);
    let (key, iv) = derive_key_iv_with_iterations(&salt.to_vec(), &secret_bytes, iters);
    let enc = cbc::Encryptor::<aes::Aes256>::new_from_slices(&key, &iv).unwrap();
    let mut buf = vec![0u8; 48];
    buf[..32].copy_from_slice(&payload);
    let ct = enc.encrypt_padded::<Pkcs7>(&mut buf, 32).unwrap().to_vec();
    let mut record = Vec::new();
    record.extend_from_slice(b"Salted__");
    record.extend_from_slice(&salt);
    record.extend_from_slice(&ct);

    // verification step
    let rec = parse_record(&record).unwrap();
    let dkek = decrypt_record_with_iterations(&rec, &secret_bytes, iters).unwrap();
    assert_eq!(dkek, payload.to_vec());

    // regenerate: new prime above the secret, same secret re-split
    let new_prime = generate_min(SECRET).unwrap();
    assert!(new_prime > SECRET);
    let new_shares = split(SECRET, 3, 5, new_prime).unwrap();
    let recovered = combine(&new_shares[2..5].to_vec(), new_prime).unwrap();
    assert_eq!(recovered.retrieve(), SECRET);
}
