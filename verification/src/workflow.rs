//! The recovery pipeline: combine the entered shares, check the result
//! against the encrypted backup record, generate a fresh larger prime, and
//! re-split the same secret under the new modulus. No new shares come out
//! unless the record verified.

use vstd::prelude::*;
use crate::codec::{fe_to_be_bytes, u64_be_bytes};
use crate::shamir::{
    Share, share_wf, combine, split, is_split, dens_invertible, lagrange_zero_of,
};
use crate::record::{parse_record, decrypt_record, raw_record_ok, magic_tag};
use crate::cipher::{cbc_plain, pkcs7_valid, pkcs7_strip};
use crate::kdf::{kdf_key, kdf_iv, KDF_ITERATIONS};
use crate::prime::generate_min;
use crate::numtheory::is_prime;
use crate::RecryptError;

verus! {

/// Everything a successful run hands back: the reconstructed secret, the
/// decrypted key backup it was checked against, and the fresh sharing.
pub struct RecoveryOutcome {
    /// The reconstructed 64-bit secret.
    pub secret: u64,
    /// The 32-byte key backup the secret decrypted.
    pub dkek: Vec<u8>,
    /// The freshly generated prime modulus for the new sharing.
    pub new_modulus: u64,
    /// The new shares of the same secret under the new modulus.
    pub new_shares: Vec<Share>,
}

/// The salt embedded in a raw 64-byte record.
pub open spec fn record_salt(bytes: Seq<u8>) -> Seq<u8> {
    bytes.subrange(8, 16)
}

/// The ciphertext embedded in a raw 64-byte record.
pub open spec fn record_ct(bytes: Seq<u8>) -> Seq<u8> {
    bytes.subrange(16, 64)
}

/// What a raw record decrypts to under the given secret, at the fixed legacy
/// iteration count.
pub open spec fn raw_record_plain(bytes: Seq<u8>, secret: u64) -> Seq<u8> {
    cbc_plain(
        kdf_key(record_salt(bytes), u64_be_bytes(secret), KDF_ITERATIONS as nat),
        kdf_iv(record_salt(bytes), u64_be_bytes(secret), KDF_ITERATIONS as nat),
        record_ct(bytes),
    )
}

/// The record accepts the secret: valid padding around a 32-byte payload.
pub open spec fn record_accepts(bytes: Seq<u8>, secret: u64) -> bool {
    pkcs7_valid(raw_record_plain(bytes, secret)) && pkcs7_strip(
        raw_record_plain(bytes, secret),
    ).len() == 32
}

/// The secret the given shares reconstruct to, as a 64-bit value.
pub open spec fn combined_secret(shares: Seq<Share>, modulus: u64) -> u64 {
    lagrange_zero_of(shares, modulus as nat) as u64
}

/// Runs the whole recovery: combine, verify against the record, generate a
/// larger prime, and re-split the secret. Nothing is emitted unless the
/// record verified; every failure names its stage.
pub fn run_recovery(
    shares: &Vec<Share>,
    modulus: u64,
    record_bytes: &Vec<u8>,
    threshold: usize,
    total: usize,
) -> (r: Result<RecoveryOutcome, RecryptError>)
    requires
        modulus >= 2,
        shares@.len() >= 1,
        forall|i: int| 0 <= i < shares@.len() ==> share_wf(#[trigger] shares@[i], modulus),
        2 <= threshold <= total,
        (total as int) < 0x8000000000000000,
    ensures
        match r {
            Ok(out) => {
                &&& dens_invertible(shares@, modulus as nat)
                &&& out.secret == combined_secret(shares@, modulus)
                &&& out.secret < modulus
                &&& raw_record_ok(record_bytes@)
                &&& record_accepts(record_bytes@, out.secret)
                &&& out.dkek@ == pkcs7_strip(raw_record_plain(record_bytes@, out.secret))
                &&& out.dkek@.len() == 32
                &&& is_prime(out.new_modulus as nat)
                &&& out.new_modulus > out.secret
                &&& out.new_modulus >= 0x8000000000000000u64
                &&& is_split(
                    out.new_shares@,
                    out.secret as nat,
                    threshold as int,
                    total as int,
                    out.new_modulus,
                )
            },
            Err(err) => match err {
                RecryptError::NotInvertible => !dens_invertible(shares@, modulus as nat),
                RecryptError::RecordWrongLength => dens_invertible(shares@, modulus as nat)
                    && record_bytes@.len() != 64,
                RecryptError::RecordBadMagic => dens_invertible(shares@, modulus as nat)
                    && record_bytes@.len() == 64 && record_bytes@.take(8) != magic_tag(),
                RecryptError::LikelyWrongShares => dens_invertible(shares@, modulus as nat)
                    && raw_record_ok(record_bytes@) && !record_accepts(
                    record_bytes@,
                    combined_secret(shares@, modulus),
                ),
                RecryptError::PrimeExhausted => dens_invertible(shares@, modulus as nat)
                    && raw_record_ok(record_bytes@) && record_accepts(
                    record_bytes@,
                    combined_secret(shares@, modulus),
                ) && combined_secret(shares@, modulus) >= 0x8000000000000000u64,
                _ => false,
            },
        },
{
    let combined = match combine(shares, modulus) {
        Ok(e) => e,
        Err(err) => {
            return Err(err);
        },
    };
    let secret = combined.retrieve();
    let secret_bytes = fe_to_be_bytes(&combined);
    let rec = match parse_record(record_bytes) {
        Ok(rec) => rec,
        Err(err) => {
            return Err(err);
        },
    };
    proof {
        assert(rec.salt@ == record_salt(record_bytes@));
        assert(rec.ciphertext@ == record_ct(record_bytes@));
        assert(secret_bytes@ == u64_be_bytes(secret));
    }
    let dkek = match decrypt_record(&rec, &secret_bytes) {
        Ok(d) => d,
        Err(_) => {
            return Err(RecryptError::LikelyWrongShares);
        },
    };
    let new_modulus = match generate_min(secret) {
        Some(p) => p,
        None => {
            return Err(RecryptError::PrimeExhausted);
        },
    };
    let new_shares = match split(secret, threshold, total, new_modulus) {
        Ok(s) => s,
        Err(err) => {
            // unreachable: the threshold bounds are preconditions here
            proof {
                assert(false);
            }
            return Err(err);
        },
    };
    Ok(RecoveryOutcome { secret, dkek, new_modulus, new_shares })
}

} // verus!
