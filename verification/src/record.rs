//! The encrypted backup record: a fixed 64-byte layout (magic tag, salt,
//! three ciphertext blocks), and its decryption against a candidate secret.
//! A padding or tag failure is the only signal that the secret was wrong.

use vstd::prelude::*;
use crate::cipher::{cbc_plain, cbc_decrypt, pkcs7_valid, pkcs7_strip, pkcs7_unpad};
use crate::kdf::{kdf_key, kdf_iv, derive_key_iv_with_iterations, KDF_ITERATIONS};
use crate::RecryptError;

verus! {

/// A parsed backup record: the salt and the 48-byte ciphertext.
pub struct EncryptedRecord {
    /// Eight bytes of salt, fed to the key derivation.
    pub salt: Vec<u8>,
    /// Three cipher blocks holding the padded 32-byte key backup.
    pub ciphertext: Vec<u8>,
}

/// A structurally sound record.
pub open spec fn record_wf(r: EncryptedRecord) -> bool {
    r.salt@.len() == 8 && r.ciphertext@.len() == 48
}

/// The magic tag every backup record starts with: the ASCII bytes of
/// `Salted__`.
pub open spec fn magic_tag() -> Seq<u8> {
    seq![0x53u8, 0x61u8, 0x6cu8, 0x74u8, 0x65u8, 0x64u8, 0x5fu8, 0x5fu8]
}

/// The magic tag as a vector.
pub fn magic_tag_bytes() -> (r: Vec<u8>)
    ensures
        r@ == magic_tag(),
{
    let mut v: Vec<u8> = Vec::new();
    v.push(0x53);
    v.push(0x61);
    v.push(0x6c);
    v.push(0x74);
    v.push(0x65);
    v.push(0x64);
    v.push(0x5f);
    v.push(0x5f);
    proof {
        assert(v@ =~= magic_tag());
    }
    v
}

/// A well-formed raw record: 64 bytes starting with the magic tag.
pub open spec fn raw_record_ok(bytes: Seq<u8>) -> bool {
    bytes.len() == 64 && bytes.take(8) == magic_tag()
}

/// Parses a raw 64-byte backup file. Succeeds exactly on a 64-byte buffer
/// with the magic tag; the salt and ciphertext are sliced out of it.
pub fn parse_record(bytes: &Vec<u8>) -> (r: Result<EncryptedRecord, RecryptError>)
    ensures
        match r {
            Ok(rec) => raw_record_ok(bytes@) && record_wf(rec) && rec.salt@ == bytes@.subrange(8, 16)
                && rec.ciphertext@ == bytes@.subrange(16, 64),
            Err(err) => !raw_record_ok(bytes@) && (err == RecryptError::RecordWrongLength <==> bytes@.len()
                != 64) && (err == RecryptError::RecordBadMagic <==> (bytes@.len() == 64
                && bytes@.take(8) != magic_tag())),
        },
{
    if bytes.len() != 64 {
        return Err(RecryptError::RecordWrongLength);
    }
    let m = magic_tag_bytes();
    let mut i: usize = 0;
    while i < 8
        invariant
            bytes@.len() == 64,
            m@ == magic_tag(),
            i <= 8,
            forall|k: int| 0 <= k < i ==> bytes@[k] == magic_tag()[k],
        decreases 8 - i,
    {
        if bytes[i] != m[i] {
            proof {
                assert(bytes@.take(8)[i as int] != magic_tag()[i as int]);
            }
            return Err(RecryptError::RecordBadMagic);
        }
        i = i + 1;
    }
    proof {
        assert(bytes@.take(8) =~= magic_tag());
    }
    let mut salt: Vec<u8> = Vec::new();
    let mut k: usize = 8;
    while k < 16
        invariant
            bytes@.len() == 64,
            8 <= k <= 16,
            salt@ == bytes@.subrange(8, k as int),
        decreases 16 - k,
    {
        salt.push(bytes[k]);
        proof {
            assert(bytes@.subrange(8, k as int + 1) =~= bytes@.subrange(8, k as int).push(
                bytes@[k as int],
            ));
        }
        k = k + 1;
    }
    let mut ciphertext: Vec<u8> = Vec::new();
    let mut t: usize = 16;
    while t < 64
        invariant
            bytes@.len() == 64,
            16 <= t <= 64,
            ciphertext@ == bytes@.subrange(16, t as int),
        decreases 64 - t,
    {
        ciphertext.push(bytes[t]);
        proof {
            assert(bytes@.subrange(16, t as int + 1) =~= bytes@.subrange(16, t as int).push(
                bytes@[t as int],
            ));
        }
        t = t + 1;
    }
    Ok(EncryptedRecord { salt, ciphertext })
}

/// The full decryption of a record's ciphertext under the key and
/// initialization vector derived from its salt and the given secret.
pub open spec fn record_plain(rec: EncryptedRecord, secret: Seq<u8>, iters: nat) -> Seq<u8> {
    cbc_plain(kdf_key(rec.salt@, secret, iters), kdf_iv(rec.salt@, secret, iters), rec.ciphertext@)
}

/// Decrypts a record with the candidate secret at the given iteration count.
/// Succeeds exactly when the decrypted buffer carries valid padding around a
/// 32-byte payload; any other outcome means the secret (or the record) is
/// wrong.
pub fn decrypt_record_with_iterations(rec: &EncryptedRecord, secret: &Vec<u8>, iterations: u64) -> (r:
    Result<Vec<u8>, RecryptError>)
    requires
        record_wf(*rec),
        secret@.len() == 8,
        iterations >= 1,
    ensures
        match r {
            Ok(payload) => pkcs7_valid(record_plain(*rec, secret@, iterations as nat)) && payload@
                == pkcs7_strip(record_plain(*rec, secret@, iterations as nat)) && payload@.len()
                == 32,
            Err(err) => {
                &&& (err == RecryptError::InvalidPadding || err
                    == RecryptError::WrongPayloadLength)
                &&& (err == RecryptError::InvalidPadding <==> !pkcs7_valid(
                    record_plain(*rec, secret@, iterations as nat),
                ))
                &&& (err == RecryptError::WrongPayloadLength <==> (pkcs7_valid(
                    record_plain(*rec, secret@, iterations as nat),
                ) && pkcs7_strip(record_plain(*rec, secret@, iterations as nat)).len() != 32))
            },
        },
{
    let (key, iv) = derive_key_iv_with_iterations(&rec.salt, secret, iterations);
    let plain = cbc_decrypt(&key, &iv, &rec.ciphertext);
    let payload = match pkcs7_unpad(&plain) {
        Ok(p) => p,
        Err(e) => {
            return Err(e);
        },
    };
    if payload.len() != 32 {
        return Err(RecryptError::WrongPayloadLength);
    }
    Ok(payload)
}

/// Decrypts a record at the fixed legacy iteration count.
pub fn decrypt_record(rec: &EncryptedRecord, secret: &Vec<u8>) -> (r: Result<
    Vec<u8>,
    RecryptError,
>)
    requires
        record_wf(*rec),
        secret@.len() == 8,
    ensures
        match r {
            Ok(payload) => pkcs7_valid(record_plain(*rec, secret@, KDF_ITERATIONS as nat))
                && payload@ == pkcs7_strip(record_plain(*rec, secret@, KDF_ITERATIONS as nat))
                && payload@.len() == 32,
            Err(err) => {
                &&& (err == RecryptError::InvalidPadding || err
                    == RecryptError::WrongPayloadLength)
                &&& (err == RecryptError::InvalidPadding <==> !pkcs7_valid(
                    record_plain(*rec, secret@, KDF_ITERATIONS as nat),
                ))
                &&& (err == RecryptError::WrongPayloadLength <==> (pkcs7_valid(
                    record_plain(*rec, secret@, KDF_ITERATIONS as nat),
                ) && pkcs7_strip(record_plain(*rec, secret@, KDF_ITERATIONS as nat)).len() != 32))
            },
        },
{
    decrypt_record_with_iterations(rec, secret, KDF_ITERATIONS)
}

} // verus!
