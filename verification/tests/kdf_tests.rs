use sc_hsm_recrypt::kdf::derive_key_iv_with_iterations;

// The reference construction, written directly against the digest crate:
// d_i = iterated-md5(d_{i-1} || secret || salt), key = d1 || d2, iv = d3.
fn reference_block(prev: &[u8], secret: &[u8], salt: &[u8], iters: usize) -> [u8; 16] {
    let mut data = Vec::new();
    data.extend_from_slice(prev);
    data.extend_from_slice(secret);
    data.extend_from_slice(salt);
    let mut h = md5::compute(&data).0;
    for _ in 1..iters {
        h = md5::compute(&h).0;
    }
    h
}

fn reference_key_iv(salt: &[u8], secret: &[u8], iters: usize) -> ([u8; 32], [u8; 16]) {
    let d1 = reference_block(&[], secret, salt, iters);
    let d2 = reference_block(&d1, secret, salt, iters);
    let d3 = reference_block(&d2, secret, salt, iters);
    let mut key = [0u8; 32];
    key[0..16].copy_from_slice(&d1);
    key[16..32].copy_from_slice(&d2);
    (key, d3)
}

#[test]
fn derive_matches_reference_at_one_iteration() {
    let salt: Vec<u8> = vec![1, 2, 3, 4, 5, 6, 7, 8];
    let secret: Vec<u8> = vec![0xde, 0xad, 0xbe, 0xef, 0x01, 0x02, 0x03, 0x04];
    let (key, iv) = derive_key_iv_with_iterations(&salt, &secret, 1);
    let (rkey, riv) = reference_key_iv(&salt, &secret, 1);
    assert_eq!(key, rkey.to_vec());
    assert_eq!(iv, riv.to_vec());
}

#[test]
fn derive_matches_reference_at_thousand_iterations() {
    let salt: Vec<u8> = vec![8, 7, 6, 5, 4, 3, 2, 1];
    let secret: Vec<u8> = vec![0, 0, 0, 0, 0, 0, 0, 1];
    let (key, iv) = derive_key_iv_with_iterations(&salt, &secret, 1000);
    let (rkey, riv) = reference_key_iv(&salt, &secret, 1000);
    assert_eq!(key, rkey.to_vec());
    assert_eq!(iv, riv.to_vec());
}

#[test]
fn first_block_is_digest_of_secret_then_salt() {
    // at one iteration, d1 is exactly md5(secret || salt): order matters
    let salt: Vec<u8> = vec![9, 9, 9, 9, 9, 9, 9, 9];
    let secret: Vec<u8> = vec![1, 1, 1, 1, 1, 1, 1, 1];
    let (key, _) = derive_key_iv_with_iterations(&salt, &secret, 1);
    let mut data = Vec::new();
    data.extend_from_slice(&secret);
    data.extend_from_slice(&salt);
    let d1 = md5::compute(&data).0;
    assert_eq!(&key[0..16], &d1[..]);
}

#[test]
fn derive_depends_on_salt_and_secret() {
    let salt1: Vec<u8> = vec![1, 2, 3, 4, 5, 6, 7, 8];
    let salt2: Vec<u8> = vec![1, 2, 3, 4, 5, 6, 7, 9];
    let secret1: Vec<u8> = vec![1, 1, 1, 1, 1, 1, 1, 1];
    let secret2: Vec<u8> = vec![1, 1, 1, 1, 1, 1, 1, 0];
    let (k11, _) = derive_key_iv_with_iterations(&salt1, &secret1, 10);
    let (k21, _) = derive_key_iv_with_iterations(&salt2, &secret1, 10);
    let (k12, _) = derive_key_iv_with_iterations(&salt1, &secret2, 10);
    assert_ne!(k11, k21);
    assert_ne!(k11, k12);
}
