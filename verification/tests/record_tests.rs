use aes::cipher::block_padding::Pkcs7;
use aes::cipher::{BlockModeEncrypt, KeyIvInit};
use sc_hsm_recrypt::kdf::derive_key_iv_with_iterations;
use sc_hsm_recrypt::record::{decrypt_record_with_iterations, parse_record, EncryptedRecord};
use sc_hsm_recrypt::RecryptError;

const ITERS: u64 = 500;

// Builds a 64-byte backup record holding `payload` encrypted under the key
// and initialization vector derived from (salt, secret) at ITERS iterations.
fn build_record_bytes(salt: &[u8; 8], secret: &[u8; 8], payload: &[u8; 32]) -> Vec<u8> {
    let (key, iv) = derive_key_iv_with_iterations(&salt.to_vec(), &secret.to_vec(), ITERS);
    let enc = cbc::Encryptor::<aes::Aes256>::new_from_slices(&key, &iv).unwrap();
    let mut buf = vec![0u8; payload.len() + 16];
    buf[..payload.len()].copy_from_slice(payload);
    let ct = enc
        .encrypt_padded::<Pkcs7>(&mut buf, payload.len())
        .unwrap()
        .to_vec();
    assert_eq!(ct.len(), 48);
    let mut bytes = Vec::new();
    bytes.extend_from_slice(b"Salted__");
    bytes.extend_from_slice(salt);
    bytes.extend_from_slice(&ct);
    bytes
}

#[test]
fn decrypt_recovers_payload_with_correct_secret() {
    let salt = [0x11u8, 0x22, 0x33, 0x44, 0x55, 0x66, 0x77, 0x88];
    let secret = [1u8, 2, 3, 4, 5, 6, 7, 8];
    let payload: [u8; 32] = core::array::from_fn(|i| (i as u8).wrapping_mul(7));
    let bytes = build_record_bytes(&salt, &secret, &payload);
    let rec = parse_record(&bytes).unwrap();
    let got = decrypt_record_with_iterations(&rec, &secret.to_vec(), ITERS).unwrap();
    assert_eq!(got, payload.to_vec());
}

#[test]
fn decrypt_with_flipped_secret_bit_fails() {
    let salt = [0x11u8, 0x22, 0x33, 0x44, 0x55, 0x66, 0x77, 0x88];
    let secret = [1u8, 2, 3, 4, 5, 6, 7, 8];
    let payload: [u8; 32] = [0xabu8; 32];
    let bytes = build_record_bytes(&salt, &secret, &payload);
    let rec = parse_record(&bytes).unwrap();
    let mut wrong = secret;
    wrong[0] ^= 0x01;
    let got = decrypt_record_with_iterations(&rec, &wrong.to_vec(), ITERS);
    assert!(matches!(
        got,
        Err(RecryptError::InvalidPadding) | Err(RecryptError::WrongPayloadLength)
    ));
}

#[test]
fn parse_rejects_wrong_length() {
    let bytes = vec![0u8; 63];
    assert!(matches!(
        parse_record(&bytes),
        Err(RecryptError::RecordWrongLength)
    ));
    let bytes = vec![0u8; 65];
    assert!(matches!(
        parse_record(&bytes),
        Err(RecryptError::RecordWrongLength)
    ));
}

#[test]
fn parse_rejects_bad_magic() {
    let mut bytes = vec![0u8; 64];
    bytes[0..8].copy_from_slice(b"Salted_x");
    assert!(matches!(
        parse_record(&bytes),
        Err(RecryptError::RecordBadMagic)
    ));
}

#[test]
fn parse_slices_salt_and_ciphertext() {
    let mut bytes = vec![0u8; 64];
    bytes[0..8].copy_from_slice(b"Salted__");
    for i in 8..64 {
        bytes[i] = i as u8;
    }
    let rec: EncryptedRecord = parse_record(&bytes).unwrap();
    assert_eq!(rec.salt, (8u8..16).collect::<Vec<u8>>());
    assert_eq!(rec.ciphertext, (16u8..64).collect::<Vec<u8>>());
}
