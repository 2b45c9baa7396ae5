//! The legacy key derivation: key and initialization vector from a salt and
//! an eight-byte secret by iterated hashing. Three 16-byte blocks d1, d2, d3
//! are produced; each hashes (previous block ‖ secret ‖ salt) once and then
//! rehashes the digest onto itself for the remaining iterations. The key is
//! d1‖d2, the initialization vector d3.

use vstd::prelude::*;

verus! {

/// How often each block is hashed in the fixed legacy configuration.
pub const KDF_ITERATIONS: u64 = 10000000;

/// The MD5 digest of a byte string: sixteen bytes, a function of the input
/// alone.
pub uninterp spec fn md5_digest(data: Seq<u8>) -> Seq<u8>;

/// Relies on `md5::compute`: the MD5 digest of the input, sixteen bytes,
/// depending on the input bytes alone.
#[verifier::external_body]
fn md5_hash(data: &Vec<u8>) -> (r: Vec<u8>)
    ensures
        r@ == md5_digest(data@),
        r@.len() == 16,
{
    md5::compute(data.as_slice()).0.to_vec()
}

/// `n`-fold application of the digest to its own output.
pub open spec fn md5_iter(d: Seq<u8>, n: nat) -> Seq<u8>
    decreases n,
{
    if n == 0 {
        d
    } else {
        md5_digest(md5_iter(d, (n - 1) as nat))
    }
}

/// One derivation block: hash (previous ‖ secret ‖ salt), then rehash the
/// digest onto itself for the remaining `iters - 1` rounds.
pub open spec fn kdf_block(prev: Seq<u8>, secret: Seq<u8>, salt: Seq<u8>, iters: nat) -> Seq<u8>
    recommends
        iters >= 1,
{
    md5_iter(md5_digest(prev + secret + salt), (iters - 1) as nat)
}

/// The first block, derived from an empty previous block.
pub open spec fn kdf_d1(salt: Seq<u8>, secret: Seq<u8>, iters: nat) -> Seq<u8> {
    kdf_block(Seq::empty(), secret, salt, iters)
}

/// The second block, chained from the first.
pub open spec fn kdf_d2(salt: Seq<u8>, secret: Seq<u8>, iters: nat) -> Seq<u8> {
    kdf_block(kdf_d1(salt, secret, iters), secret, salt, iters)
}

/// The third block, chained from the second.
pub open spec fn kdf_d3(salt: Seq<u8>, secret: Seq<u8>, iters: nat) -> Seq<u8> {
    kdf_block(kdf_d2(salt, secret, iters), secret, salt, iters)
}

/// The derived 32-byte key: the first two blocks.
pub open spec fn kdf_key(salt: Seq<u8>, secret: Seq<u8>, iters: nat) -> Seq<u8> {
    kdf_d1(salt, secret, iters) + kdf_d2(salt, secret, iters)
}

/// The derived 16-byte initialization vector: the third block.
pub open spec fn kdf_iv(salt: Seq<u8>, secret: Seq<u8>, iters: nat) -> Seq<u8> {
    kdf_d3(salt, secret, iters)
}

/// Appends all of `src` to `dst`.
pub fn append_bytes(dst: &mut Vec<u8>, src: &Vec<u8>)
    ensures
        final(dst)@ == old(dst)@ + src@,
{
    let mut i: usize = 0;
    while i < src.len()
        invariant
            i <= src@.len(),
            dst@ == old(dst)@ + src@.subrange(0, i as int),
        decreases src@.len() - i,
    {
        dst.push(src[i]);
        proof {
            assert(old(dst)@ + src@.subrange(0, i as int + 1) =~= (old(dst)@ + src@.subrange(
                0,
                i as int,
            )).push(src@[i as int]));
        }
        i = i + 1;
    }
    proof {
        assert(src@.subrange(0, src@.len() as int) =~= src@);
    }
}

/// One block of the derivation: hash (previous ‖ secret ‖ salt) once, then
/// rehash the digest `iters - 1` more times.
fn kdf_round(prev: &Vec<u8>, secret: &Vec<u8>, salt: &Vec<u8>, iters: u64) -> (r: Vec<u8>)
    requires
        iters >= 1,
    ensures
        r@ == kdf_block(prev@, secret@, salt@, iters as nat),
        r@.len() == 16,
{
    let mut data: Vec<u8> = Vec::new();
    append_bytes(&mut data, prev);
    append_bytes(&mut data, secret);
    append_bytes(&mut data, salt);
    proof {
        assert(data@ =~= prev@ + secret@ + salt@);
    }
    let mut h = md5_hash(&data);
    let mut i: u64 = 1;
    while i < iters
        invariant
            1 <= i <= iters,
            h@ == md5_iter(md5_digest(prev@ + secret@ + salt@), (i - 1) as nat),
            h@.len() == 16,
        decreases iters - i,
    {
        h = md5_hash(&h);
        i = i + 1;
    }
    h
}

/// Derives the 32-byte key and 16-byte initialization vector from a salt and
/// an eight-byte secret, at the given iteration count.
pub fn derive_key_iv_with_iterations(salt: &Vec<u8>, secret: &Vec<u8>, iterations: u64) -> (r: (
    Vec<u8>,
    Vec<u8>,
))
    requires
        salt@.len() == 8,
        secret@.len() == 8,
        iterations >= 1,
    ensures
        r.0@ == kdf_key(salt@, secret@, iterations as nat),
        r.0@.len() == 32,
        r.1@ == kdf_iv(salt@, secret@, iterations as nat),
        r.1@.len() == 16,
{
    let empty: Vec<u8> = Vec::new();
    proof {
        assert(empty@ =~= Seq::<u8>::empty());
    }
    let d1 = kdf_round(&empty, secret, salt, iterations);
    let d2 = kdf_round(&d1, secret, salt, iterations);
    let d3 = kdf_round(&d2, secret, salt, iterations);
    let mut key: Vec<u8> = Vec::new();
    append_bytes(&mut key, &d1);
    append_bytes(&mut key, &d2);
    proof {
        assert(Seq::<u8>::empty() + d1@ + d2@ =~= d1@ + d2@);
    }
    (key, d3)
}

/// Derives the key and initialization vector at the fixed legacy iteration
/// count. This must match the legacy construction bit for bit, or
/// decryption fails even with the correct secret.
pub fn derive_key_iv(salt: &Vec<u8>, secret: &Vec<u8>) -> (r: (Vec<u8>, Vec<u8>))
    requires
        salt@.len() == 8,
        secret@.len() == 8,
    ensures
        r.0@ == kdf_key(salt@, secret@, KDF_ITERATIONS as nat),
        r.0@.len() == 32,
        r.1@ == kdf_iv(salt@, secret@, KDF_ITERATIONS as nat),
        r.1@.len() == 16,
{
    derive_key_iv_with_iterations(salt, secret, KDF_ITERATIONS)
}

} // verus!
