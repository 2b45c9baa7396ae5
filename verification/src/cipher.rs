//! Chained-block decryption over a one-block AES-256 primitive, and
//! byte-count padding validation. The chaining and the padding check are the
//! logic of this module; only the single-block cipher call is relied upon.

use vstd::prelude::*;
use vstd::arithmetic::div_mod::lemma_sub_mod_noop;
use crate::RecryptError;

verus! {

/// The AES-256 decryption of one sixteen-byte block under a 32-byte key:
/// sixteen bytes, a function of key and block alone.
pub uninterp spec fn aes256_decrypt_block(key: Seq<u8>, block: Seq<u8>) -> Seq<u8>;

/// Relies on `aes::Aes256` (`cipher::BlockCipherDecrypt::decrypt_block`):
/// raw one-block AES-256 decryption, a function of key and block alone,
/// sixteen bytes out.
#[verifier::external_body]
fn aes256_dec_block(key: &Vec<u8>, block: &Vec<u8>) -> (r: Vec<u8>)
    requires
        key@.len() == 32,
        block@.len() == 16,
    ensures
        r@ == aes256_decrypt_block(key@, block@),
        r@.len() == 16,
{
    let cipher = <aes::Aes256 as aes::cipher::KeyInit>::new_from_slice(key.as_slice()).unwrap();
    let mut b = aes::Block::try_from(block.as_slice()).unwrap();
    aes::cipher::BlockCipherDecrypt::decrypt_block(&cipher, &mut b);
    b.as_slice().to_vec()
}

/// Byte-wise exclusive or of two sixteen-byte strings.
pub open spec fn xor16(a: Seq<u8>, b: Seq<u8>) -> Seq<u8> {
    Seq::new(16, |i: int| a[i] ^ b[i])
}

/// Chained-block decryption: each plaintext block is the block decryption of
/// its ciphertext block, xored with the previous ciphertext block (the
/// initialization vector before the first).
pub open spec fn cbc_plain(key: Seq<u8>, prev: Seq<u8>, ct: Seq<u8>) -> Seq<u8>
    decreases ct.len(),
{
    if ct.len() < 16 {
        Seq::empty()
    } else {
        xor16(aes256_decrypt_block(key, ct.take(16)), prev) + cbc_plain(
            key,
            ct.take(16),
            ct.skip(16),
        )
    }
}

/// The length of the chained decryption matches the ciphertext, block for
/// block.
pub proof fn lemma_cbc_plain_len(key: Seq<u8>, prev: Seq<u8>, ct: Seq<u8>)
    requires
        ct.len() % 16 == 0,
    ensures
        cbc_plain(key, prev, ct).len() == ct.len(),
    decreases ct.len(),
{
    if ct.len() >= 16 {
        assert(ct.skip(16).len() % 16 == 0) by {
            assert(ct.len() >= 16);
            vstd::arithmetic::div_mod::lemma_mod_sub_multiples_vanish(
                ct.len() as int,
                16,
            );
        }
        lemma_cbc_plain_len(key, ct.take(16), ct.skip(16));
    }
}

/// Decrypts a whole ciphertext in chained-block mode under the given key and
/// initialization vector.
pub fn cbc_decrypt(key: &Vec<u8>, iv: &Vec<u8>, ct: &Vec<u8>) -> (r: Vec<u8>)
    requires
        key@.len() == 32,
        iv@.len() == 16,
        ct@.len() % 16 == 0,
    ensures
        r@ == cbc_plain(key@, iv@, ct@),
        r@.len() == ct@.len(),
{
    let n = ct.len();
    let mut out: Vec<u8> = Vec::new();
    let mut prev: Vec<u8> = Vec::new();
    let mut i: usize = 0;
    proof {
        lemma_cbc_plain_len(key@, iv@, ct@);
        assert(ct@.skip(0) =~= ct@);
        assert(Seq::<u8>::empty() + cbc_plain(key@, iv@, ct@) =~= cbc_plain(key@, iv@, ct@));
    }
    while i < n
        invariant
            key@.len() == 32,
            iv@.len() == 16,
            n == ct@.len(),
            ct@.len() % 16 == 0,
            i % 16 == 0,
            i <= n,
            out@.len() == i,
            i == 0 ==> prev@.len() == 0,
            i > 0 ==> prev@.len() == 16,
            cbc_plain(key@, iv@, ct@) == out@ + cbc_plain(
                key@,
                if i == 0 { iv@ } else { prev@ },
                ct@.skip(i as int),
            ),
        decreases ct@.len() - i,
    {
        proof {
            lemma_sub_mod_noop(ct@.len() as int, i as int, 16);
            vstd::arithmetic::div_mod::lemma_mod_is_zero((ct@.len() - i) as nat, 16);
        }
        let mut block: Vec<u8> = Vec::new();
        let mut j: usize = 0;
        while j < 16
            invariant
                n == ct@.len(),
                i + 16 <= n,
                j <= 16,
                block@ == ct@.subrange(i as int, i as int + j as int),
            decreases 16 - j,
        {
            block.push(ct[i + j]);
            proof {
                assert(ct@.subrange(i as int, i as int + j as int + 1) =~= ct@.subrange(
                    i as int,
                    i as int + j as int,
                ).push(ct@[i as int + j as int]));
            }
            j = j + 1;
        }
        let d = aes256_dec_block(key, &block);
        let ghost pv: Seq<u8> = if i == 0 { iv@ } else { prev@ };
        let ghost out0 = out@;
        let mut k: usize = 0;
        while k < 16
            invariant
                d@.len() == 16,
                pv.len() == 16,
                k <= 16,
                out0.len() == i,
                out@.len() == i + k,
                out@.take(i as int) == out0,
                i == 0 ==> prev@.len() == 0,
                i > 0 ==> prev@.len() == 16,
                iv@.len() == 16,
                pv == if i == 0 { iv@ } else { prev@ },
                forall|t: int| 0 <= t < k ==> out@[i + t] == (d@[t] ^ pv[t]),
            decreases 16 - k,
        {
            let pb: u8 = if i == 0 {
                iv[k]
            } else {
                prev[k]
            };
            out.push(d[k] ^ pb);
            proof {
                assert(out@.take(i as int) =~= out0);
            }
            k = k + 1;
        }
        proof {
            let rest = ct@.skip(i as int);
            assert(rest.take(16) =~= block@);
            assert(rest.skip(16) =~= ct@.skip(i as int + 16));
            assert(cbc_plain(key@, pv, rest) == xor16(aes256_decrypt_block(key@, block@), pv)
                + cbc_plain(key@, block@, ct@.skip(i as int + 16)));
            assert(out@ =~= out0 + xor16(d@, pv));
            assert(out0 + (xor16(d@, pv) + cbc_plain(key@, block@, ct@.skip(i as int + 16))) =~= (
            out0 + xor16(d@, pv)) + cbc_plain(key@, block@, ct@.skip(i as int + 16)));
        }
        prev = block;
        i = i + 16;
    }
    proof {
        assert(ct@.skip(ct@.len() as int) =~= Seq::<u8>::empty());
        assert(out@ + cbc_plain(key@, if i == 0 { iv@ } else { prev@ }, ct@.skip(i as int)) =~= out@);
    }
    out
}

/// Valid byte-count padding: the last byte names the pad length, between one
/// and the block size, and that many trailing bytes all carry that value.
pub open spec fn pkcs7_valid(data: Seq<u8>) -> bool {
    &&& data.len() >= 1
    &&& 1 <= data[data.len() - 1] as int <= 16
    &&& data[data.len() - 1] as int <= data.len()
    &&& forall|i: int|
        data.len() - data[data.len() - 1] <= i < data.len() ==> #[trigger] data[i] == data[data.len()
            - 1]
}

/// The payload once valid padding is removed.
pub open spec fn pkcs7_strip(data: Seq<u8>) -> Seq<u8> {
    data.take(data.len() - data[data.len() - 1] as int)
}

/// Removes and validates byte-count padding. Succeeds exactly on validly
/// padded input; a failure is the caller's signal of a wrong key.
pub fn pkcs7_unpad(data: &Vec<u8>) -> (r: Result<Vec<u8>, RecryptError>)
    ensures
        match r {
            Ok(out) => pkcs7_valid(data@) && out@ == pkcs7_strip(data@),
            Err(err) => !pkcs7_valid(data@) && err == RecryptError::InvalidPadding,
        },
{
    let n = data.len();
    if n == 0 {
        return Err(RecryptError::InvalidPadding);
    }
    let b = data[n - 1];
    if b == 0 || b > 16 || (b as usize) > n {
        return Err(RecryptError::InvalidPadding);
    }
    let pad = b as usize;
    let mut i: usize = n - pad;
    while i < n
        invariant
            n == data@.len(),
            1 <= pad <= n,
            b == data@[n - 1],
            pad == b as int,
            n - pad <= i <= n,
            forall|t: int| n - pad <= t < i ==> data@[t] == b,
        decreases n - i,
    {
        if data[i] != b {
            return Err(RecryptError::InvalidPadding);
        }
        i = i + 1;
    }
    let mut out: Vec<u8> = Vec::new();
    let mut k: usize = 0;
    while k < n - pad
        invariant
            n == data@.len(),
            pad <= n,
            k <= n - pad,
            out@ == data@.subrange(0, k as int),
        decreases n - pad - k,
    {
        out.push(data[k]);
        proof {
            assert(data@.subrange(0, k as int + 1) =~= data@.subrange(0, k as int).push(
                data@[k as int],
            ));
        }
        k = k + 1;
    }
    Ok(out)
}

} // verus!
