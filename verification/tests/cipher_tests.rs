use aes::cipher::block_padding::Pkcs7;
use aes::cipher::{BlockModeEncrypt, KeyIvInit};
use sc_hsm_recrypt::cipher::{cbc_decrypt, pkcs7_unpad};
use sc_hsm_recrypt::RecryptError;

fn encrypt_reference(key: &[u8; 32], iv: &[u8; 16], payload: &[u8]) -> Vec<u8> {
    let enc = cbc::Encryptor::<aes::Aes256>::new_from_slices(key, iv).unwrap();
    let mut buf = vec![0u8; payload.len() + 16];
    buf[..payload.len()].copy_from_slice(payload);
    let ct = enc.encrypt_padded::<Pkcs7>(&mut buf, payload.len()).unwrap();
    ct.to_vec()
}

#[test]
fn cbc_decrypt_inverts_reference_encryption() {
    let key = [0x42u8; 32];
    let iv = [0x24u8; 16];
    let payload: Vec<u8> = (0u8..32).collect();
    let ct = encrypt_reference(&key, &iv, &payload);
    assert_eq!(ct.len(), 48);
    let plain = cbc_decrypt(&key.to_vec(), &iv.to_vec(), &ct);
    let got = pkcs7_unpad(&plain).unwrap();
    assert_eq!(got, payload);
}

#[test]
fn cbc_decrypt_chains_blocks() {
    let key = [7u8; 32];
    let iv = [3u8; 16];
    let payload: Vec<u8> = (100u8..148).collect(); // three blocks, no padding block
    let ct = encrypt_reference(&key, &iv, &payload);
    assert_eq!(ct.len(), 64);
    let plain = cbc_decrypt(&key.to_vec(), &iv.to_vec(), &ct);
    assert_eq!(&plain[0..48], &payload[..]);
}

#[test]
fn unpad_accepts_full_padding_block() {
    let mut data: Vec<u8> = (0u8..32).collect();
    data.extend(std::iter::repeat(16u8).take(16));
    let got = pkcs7_unpad(&data).unwrap();
    assert_eq!(got.len(), 32);
}

#[test]
fn unpad_accepts_single_byte_padding() {
    let mut data: Vec<u8> = vec![5, 6, 7];
    data.push(1);
    assert_eq!(pkcs7_unpad(&data).unwrap(), vec![5, 6, 7]);
}

#[test]
fn unpad_rejects_zero_and_oversized_pad_byte() {
    let mut data = vec![0u8; 16];
    data[15] = 0;
    assert_eq!(pkcs7_unpad(&data), Err(RecryptError::InvalidPadding));
    data[15] = 17;
    assert_eq!(pkcs7_unpad(&data), Err(RecryptError::InvalidPadding));
}

#[test]
fn unpad_rejects_inconsistent_fill() {
    let mut data = vec![9u8; 16];
    data[15] = 3;
    data[14] = 3;
    data[13] = 4; // should be 3
    assert_eq!(pkcs7_unpad(&data), Err(RecryptError::InvalidPadding));
}

#[test]
fn unpad_rejects_empty_input_and_pad_longer_than_data() {
    let empty: Vec<u8> = Vec::new();
    assert_eq!(pkcs7_unpad(&empty), Err(RecryptError::InvalidPadding));
    let short: Vec<u8> = vec![4, 4];
    assert_eq!(pkcs7_unpad(&short), Err(RecryptError::InvalidPadding));
}
