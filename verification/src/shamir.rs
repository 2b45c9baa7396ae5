//! Threshold secret sharing over a 64-bit prime field: Lagrange
//! reconstruction at zero, and polynomial splitting with the sequential
//! identifier policy (identifiers one, two, three, ...).

use vstd::prelude::*;
use vstd::arithmetic::div_mod::{
    lemma_add_mod_noop_right, lemma_mul_mod_noop_left, lemma_mul_mod_noop_right,
};
use vstd::arithmetic::mul::lemma_mul_is_commutative;
use crate::field::{FieldElement, fe_val, add_mod, mul_mod, sub_mod, invert_mod, has_inv, finv, lemma_finv_is, lemma_no_inv, lemma_inv_unique};
use crate::codec::random_u64;
use crate::RecryptError;

verus! {

/// One share: an (identifier, value) pair of residues bound to one modulus.
#[derive(Debug, Clone, Copy, PartialEq, Eq, Structural)]
pub struct Share {
    /// The evaluation point, never zero (zero is where the secret lives).
    pub identifier: FieldElement,
    /// The polynomial's value at the identifier.
    pub value: FieldElement,
}

/// A share fit for use under modulus `p`: both halves are residues of `p`,
/// reduced, and the identifier is nonzero.
pub open spec fn share_wf(s: Share, p: u64) -> bool {
    &&& s.identifier matches FieldElement::Residue(x, xp) && xp == p && x < p && x != 0
    &&& s.value matches FieldElement::Residue(y, yp) && yp == p && y < p
}

/// The identifiers of a run of shares, as integers.
pub open spec fn share_ids(shares: Seq<Share>) -> Seq<nat> {
    shares.map_values(|s: Share| fe_val(s.identifier))
}

/// The values of a run of shares, as integers.
pub open spec fn share_vals(shares: Seq<Share>) -> Seq<nat> {
    shares.map_values(|s: Share| fe_val(s.value))
}

/// Horner evaluation of a polynomial (low coefficient first) modulo `p`.
pub open spec fn poly_eval(coeffs: Seq<nat>, x: nat, p: nat) -> nat
    decreases coeffs.len(),
{
    if coeffs.len() == 0 {
        0
    } else {
        (coeffs[0] + x * poly_eval(coeffs.subrange(1, coeffs.len() as int), x, p)) % p
    }
}

/// Partial Lagrange numerator for share `i`: the product of the identifiers
/// of the first `k` shares other than share `i`, modulo `p`.
pub open spec fn lag_num(ids: Seq<nat>, i: int, k: int, p: nat) -> nat
    decreases k,
{
    if k <= 0 {
        1nat % p
    } else if k - 1 == i {
        lag_num(ids, i, k - 1, p)
    } else {
        (lag_num(ids, i, k - 1, p) * ids[k - 1]) % p
    }
}

/// Partial Lagrange denominator for share `i`: the product of the
/// differences `ids[j] - ids[i]` over the first `k` shares other than `i`.
pub open spec fn lag_den(ids: Seq<nat>, i: int, k: int, p: nat) -> nat
    decreases k,
{
    if k <= 0 {
        1nat % p
    } else if k - 1 == i {
        lag_den(ids, i, k - 1, p)
    } else {
        (lag_den(ids, i, k - 1, p) * (((ids[k - 1] as int - ids[i] as int) % p as int) as nat)) % p
    }
}

/// Share `i`'s contribution to the interpolation at zero.
pub open spec fn lag_term(ids: Seq<nat>, vals: Seq<nat>, i: int, p: nat) -> nat {
    (((vals[i] * lag_num(ids, i, ids.len() as int, p)) % p) * finv(
        lag_den(ids, i, ids.len() as int, p),
        p,
    )) % p
}

/// The sum of the first `k` contributions, modulo `p`.
pub open spec fn lag_sum(ids: Seq<nat>, vals: Seq<nat>, k: int, p: nat) -> nat
    decreases k,
{
    if k <= 0 {
        0
    } else {
        (lag_sum(ids, vals, k - 1, p) + lag_term(ids, vals, k - 1, p)) % p
    }
}

/// What reconstruction returns: the Lagrange interpolation of the shares,
/// evaluated at zero.
pub open spec fn lagrange_zero_of(shares: Seq<Share>, p: nat) -> nat {
    lag_sum(share_ids(shares), share_vals(shares), shares.len() as int, p)
}

/// Every share's Lagrange denominator is invertible — exactly the condition
/// under which reconstruction succeeds. Duplicate identifiers make some
/// denominator zero and fail this.
pub open spec fn dens_invertible(shares: Seq<Share>, p: nat) -> bool {
    forall|i: int|
        0 <= i < shares.len() ==> has_inv(
            #[trigger] lag_den(share_ids(shares), i, shares.len() as int, p),
            p,
        )
}

/// Reconstructs the secret from the given shares by Lagrange interpolation
/// at zero. Returns whatever the algebra yields: correctness of the secret
/// is checked downstream against the encrypted backup record.
pub fn combine(shares: &Vec<Share>, p: u64) -> (r: Result<FieldElement, RecryptError>)
    requires
        p >= 2,
        shares@.len() >= 1,
        forall|i: int| 0 <= i < shares@.len() ==> share_wf(#[trigger] shares@[i], p),
    ensures
        match r {
            Ok(e) => dens_invertible(shares@, p as nat) && e == FieldElement::Residue(
                lagrange_zero_of(shares@, p as nat) as u64,
                p,
            ),
            Err(err) => !dens_invertible(shares@, p as nat) && err == RecryptError::NotInvertible,
        },
{
    let ghost ids = share_ids(shares@);
    let ghost vals = share_vals(shares@);
    let n = shares.len();
    let mut acc: u64 = 0;
    let mut i: usize = 0;
    while i < n
        invariant
            p >= 2,
            n == shares@.len(),
            1 <= n,
            i <= n,
            ids == share_ids(shares@),
            vals == share_vals(shares@),
            forall|k: int| 0 <= k < n ==> share_wf(#[trigger] shares@[k], p),
            acc < p,
            acc as nat == lag_sum(ids, vals, i as int, p as nat),
            forall|k: int|
                0 <= k < i ==> has_inv(#[trigger] lag_den(ids, k, n as int, p as nat), p as nat),
        decreases n - i,
    {
        let xi = shares[i].identifier.retrieve();
        let yi = shares[i].value.retrieve();
        let mut num: u64 = 1 % p;
        let mut den: u64 = 1 % p;
        let mut j: usize = 0;
        while j < n
            invariant
                p >= 2,
                n == shares@.len(),
                i < n,
                j <= n,
                ids == share_ids(shares@),
                forall|k: int| 0 <= k < n ==> share_wf(#[trigger] shares@[k], p),
                xi as nat == ids[i as int],
                num < p,
                den < p,
                num as nat == lag_num(ids, i as int, j as int, p as nat),
                den as nat == lag_den(ids, i as int, j as int, p as nat),
            decreases n - j,
        {
            if j != i {
                let xj = shares[j].identifier.retrieve();
                num = mul_mod(num, xj, p);
                den = mul_mod(den, sub_mod(xj, xi, p), p);
            }
            j = j + 1;
        }
        let inv = match invert_mod(den, p) {
            Some(w) => w,
            None => {
                proof {
                    crate::numtheory::lemma_gcd_pos(p as nat, den as nat);
                    lemma_no_inv(den as nat, p as nat);
                }
                return Err(RecryptError::NotInvertible);
            },
        };
        proof {
            lemma_mul_is_commutative(den as int, inv as int);
            lemma_finv_is(den as nat, p as nat, inv as nat);
        }
        let term = mul_mod(mul_mod(yi, num, p), inv, p);
        acc = add_mod(acc, term, p);
        i = i + 1;
    }
    Ok(FieldElement::Residue(acc, p))
}

/// The reduced coefficient vector of the split polynomial: the secret as the
/// constant term, then the blinding coefficients reduced modulo `p`.
pub open spec fn split_poly(secret: nat, coeffs: Seq<nat>, p: nat) -> Seq<nat> {
    seq![secret].add(coeffs.map_values(|c: nat| c % p))
}

/// The shares are exactly the split polynomial evaluated at the sequential
/// identifiers one through `n`.
pub open spec fn shares_match_poly(shares: Seq<Share>, polyc: Seq<nat>, n: int, p: u64) -> bool {
    &&& shares.len() == n
    &&& forall|k: int|
        0 <= k < n ==> (#[trigger] shares[k]).identifier == FieldElement::Residue((k + 1) as u64, p)
            && shares[k].value == FieldElement::Residue(
            poly_eval(polyc, (k + 1) as nat, p as nat) as u64,
            p,
        )
}

/// The shares arise from splitting `secret` with threshold `t` into `n`
/// shares under `p`: some degree-`t-1` polynomial with constant term
/// `secret` fits them at the sequential identifiers.
pub open spec fn is_split(shares: Seq<Share>, secret: nat, t: int, n: int, p: u64) -> bool {
    exists|cs: Seq<nat>|
        cs.len() == t - 1 && #[trigger] shares_match_poly(shares, split_poly(secret, cs, p as nat), n, p)
}

/// Horner evaluation of a reduced-coefficient polynomial at `x`, modulo `p`.
pub fn eval_poly(poly: &Vec<u64>, x: u64, p: u64) -> (r: u64)
    requires
        p >= 2,
        forall|k: int| 0 <= k < poly@.len() ==> poly@[k] < p,
    ensures
        r as nat == poly_eval(poly@.map_values(|c: u64| c as nat), x as nat, p as nat),
        r < p,
{
    let ghost s = poly@.map_values(|c: u64| c as nat);
    let mut acc: u64 = 0;
    let mut k = poly.len();
    proof {
        assert(s.subrange(k as int, s.len() as int) =~= Seq::<nat>::empty());
    }
    while k > 0
        invariant
            p >= 2,
            k <= poly@.len(),
            s == poly@.map_values(|c: u64| c as nat),
            forall|t: int| 0 <= t < poly@.len() ==> poly@[t] < p,
            acc < p,
            acc as nat == poly_eval(s.subrange(k as int, s.len() as int), x as nat, p as nat),
        decreases k,
    {
        k = k - 1;
        let c = poly[k];
        let ghost tail = s.subrange(k as int + 1, s.len() as int);
        let ghost whole = s.subrange(k as int, s.len() as int);
        proof {
            assert(whole.subrange(1, whole.len() as int) =~= tail);
            assert(whole[0] == s[k as int]);
            lemma_add_mod_noop_right(c as int, x as int * acc as int, p as int);
        }
        acc = add_mod(c, mul_mod(x, acc, p), p);
    }
    proof {
        assert(s.subrange(0, s.len() as int) =~= s);
    }
    acc
}

/// Splits `secret` into `total` shares with the given blinding coefficients:
/// share `k` is the polynomial `secret + coeffs[0]·x + ... + coeffs[t-2]·x^(t-1)`
/// evaluated at identifier `k + 1`. Fails exactly when the threshold is
/// under two or exceeds the total.
pub fn split_with_coeffs(
    secret: u64,
    coeffs: &Vec<u64>,
    threshold: usize,
    total: usize,
    p: u64,
) -> (r: Result<Vec<Share>, RecryptError>)
    requires
        p >= 2,
        secret < p,
        (total as int) < p,
        coeffs@.len() + 1 == threshold,
    ensures
        match r {
            Ok(shares) => threshold >= 2 && total >= threshold && shares_match_poly(
                shares@,
                split_poly(secret as nat, coeffs@.map_values(|c: u64| c as nat), p as nat),
                total as int,
                p,
            ),
            Err(err) => (threshold < 2 || total < threshold) && err
                == RecryptError::InvalidThreshold,
        },
{
    if threshold < 2 || total < threshold {
        return Err(RecryptError::InvalidThreshold);
    }
    let ghost polyc = split_poly(
        secret as nat,
        coeffs@.map_values(|c: u64| c as nat),
        p as nat,
    );
    let mut poly: Vec<u64> = Vec::new();
    poly.push(secret);
    let mut t: usize = 0;
    while t < coeffs.len()
        invariant
            p >= 2,
            secret < p,
            t <= coeffs@.len(),
            poly@.len() == t + 1,
            poly@[0] == secret,
            forall|k: int| 0 <= k < poly@.len() ==> poly@[k] < p,
            forall|k: int| 0 <= k < t ==> poly@[k + 1] as nat == (coeffs@[k] as nat) % (p as nat),
        decreases coeffs@.len() - t,
    {
        let c = coeffs[t];
        proof {
            vstd::arithmetic::div_mod::lemma_mod_division_less_than_divisor(c as int, p as int);
        }
        poly.push(c % p);
        t = t + 1;
    }
    proof {
        assert(poly@.map_values(|c: u64| c as nat) =~= polyc);
    }
    let mut shares: Vec<Share> = Vec::new();
    let mut k: usize = 0;
    while k < total
        invariant
            p >= 2,
            (total as int) < p,
            k <= total,
            polyc == poly@.map_values(|c: u64| c as nat),
            forall|t2: int| 0 <= t2 < poly@.len() ==> poly@[t2] < p,
            shares@.len() == k,
            forall|t2: int|
                0 <= t2 < k ==> (#[trigger] shares@[t2]).identifier == FieldElement::Residue(
                    (t2 + 1) as u64,
                    p,
                ) && shares@[t2].value == FieldElement::Residue(
                    poly_eval(polyc, (t2 + 1) as nat, p as nat) as u64,
                    p,
                ),
        decreases total - k,
    {
        let id: u64 = (k as u64) + 1;
        let v = eval_poly(&poly, id, p);
        shares.push(
            Share {
                identifier: FieldElement::Residue(id, p),
                value: FieldElement::Residue(v, p),
            },
        );
        k = k + 1;
    }
    Ok(shares)
}

/// Splits `secret` into `total` shares of threshold `threshold` under prime
/// modulus `p`, drawing the blinding coefficients from the system's secure
/// random source. Fails exactly when the threshold is under two or exceeds
/// the total — never from randomness.
pub fn split(secret: u64, threshold: usize, total: usize, p: u64) -> (r: Result<
    Vec<Share>,
    RecryptError,
>)
    requires
        p >= 2,
        secret < p,
        (total as int) < p,
    ensures
        match r {
            Ok(shares) => threshold >= 2 && total >= threshold && is_split(
                shares@,
                secret as nat,
                threshold as int,
                total as int,
                p,
            ),
            Err(err) => (threshold < 2 || total < threshold) && err
                == RecryptError::InvalidThreshold,
        },
{
    if threshold < 2 || total < threshold {
        return Err(RecryptError::InvalidThreshold);
    }
    let mut coeffs: Vec<u64> = Vec::new();
    let mut t: usize = 0;
    while t < threshold - 1
        invariant
            t <= threshold - 1,
            coeffs@.len() == t,
        decreases threshold - 1 - t,
    {
        coeffs.push(random_u64());
        t = t + 1;
    }
    match split_with_coeffs(secret, &coeffs, threshold, total, p) {
        Ok(shares) => {
            proof {
                let cs = coeffs@.map_values(|c: u64| c as nat);
                assert(cs.len() == threshold - 1);
                assert(shares_match_poly(
                    shares@,
                    split_poly(secret as nat, cs, p as nat),
                    total as int,
                    p,
                ));
            }
            Ok(shares)
        },
        Err(err) => {
            // unreachable: the threshold bounds were checked before drawing
            proof {
                assert(false);
            }
            Err(err)
        },
    }
}


/// Interpolating a degree-one polynomial `s + c·x` at zero from its values
/// at two distinct nonzero points recovers `s`: the algebraic core of
/// two-share reconstruction. Both Lagrange denominators are invertible under
/// the prime modulus, and the interpolation sum is exactly the secret.
pub proof fn lemma_two_point_interpolation(s: nat, c: nat, x1: nat, x2: nat, p: nat)
    requires
        crate::numtheory::is_prime(p),
        s < p,
        c < p,
        0 < x1 < p,
        0 < x2 < p,
        x1 != x2,
    ensures
        has_inv((((x2 as int - x1 as int) % p as int) as nat), p),
        has_inv((((x1 as int - x2 as int) % p as int) as nat), p),
        ({
            let d1 = ((x2 as int - x1 as int) % p as int) as nat;
            let d2 = ((x1 as int - x2 as int) % p as int) as nat;
            let v1 = (s + x1 * c) % p;
            let v2 = (s + x2 * c) % p;
            ((((v1 * x2) % p) * finv(d1, p)) % p + (((v2 * x1) % p) * finv(d2, p)) % p) % p == s
        }),
{
    let pi = p as int;
    let d1i = (x2 as int - x1 as int) % pi;
    let d2i = (x1 as int - x2 as int) % pi;
    assert(0 < d1i < pi && 0 < d2i < pi && d2i == pi - d1i) by {
        if x2 > x1 {
            vstd::arithmetic::div_mod::lemma_small_mod((x2 - x1) as nat, p);
            vstd::arithmetic::div_mod::lemma_fundamental_div_mod_converse_mod(
                x1 as int - x2 as int,
                pi,
                -1,
                x1 as int - x2 as int + pi,
            );
        } else {
            vstd::arithmetic::div_mod::lemma_small_mod((x1 - x2) as nat, p);
            vstd::arithmetic::div_mod::lemma_fundamental_div_mod_converse_mod(
                x2 as int - x1 as int,
                pi,
                -1,
                x2 as int - x1 as int + pi,
            );
        }
    }
    let d1 = d1i as nat;
    let d2 = d2i as nat;
    crate::field::lemma_prime_inverse_exists(d1, p);
    crate::field::lemma_prime_inverse_exists(d2, p);
    let e1 = finv(d1, p);
    let e2 = finv(d2, p);
    assert(e1 < p && (d1 * e1) % p == 1);
    assert(e2 < p && (d2 * e2) % p == 1);
    assert(e1 != 0) by {
        if e1 == 0 {
            assert(d1 * e1 == 0);
            vstd::arithmetic::div_mod::lemma_small_mod(0, p);
        }
    }
    assert((d2 * (p - e1) as nat) % p == 1) by {
        assert(d2i * (pi - e1 as int) == pi * (pi - d1i - e1 as int) + d1i * e1 as int)
            by (nonlinear_arith)
            requires
                d2i == pi - d1i,
        ;
        vstd::arithmetic::div_mod::lemma_mod_multiples_vanish(
            pi - d1i - e1 as int,
            d1i * e1 as int,
            pi,
        );
    }
    lemma_inv_unique(d2, p, e2, (p - e1) as nat);
    assert(e2 as int == pi - e1 as int);
    let v1 = (s + x1 * c) % p;
    let v2 = (s + x2 * c) % p;
    let t0 = (((v1 * x2) % p) * e1) % p;
    let t1 = (((v2 * x1) % p) * e2) % p;
    let a1 = (s + x1 * c) as int * x2 as int * e1 as int;
    let a2 = (s + x2 * c) as int * x1 as int * (pi - e1 as int);
    assert(t0 as int == a1 % pi) by {
        lemma_mul_mod_noop_left((s + x1 * c) as int, x2 as int, pi);
        lemma_mul_mod_noop_left(((s + x1 * c) * x2) as int, e1 as int, pi);
        lemma_mul_mod_noop_left((v1 * x2) as int, e1 as int, pi);
        assert((v1 * x2) % p == ((s + x1 * c) * x2) % p);
        assert(a1 == ((s + x1 * c) * x2) as int * e1 as int);
    }
    assert(t1 as int == a2 % pi) by {
        lemma_mul_mod_noop_left((s + x2 * c) as int, x1 as int, pi);
        lemma_mul_mod_noop_left(((s + x2 * c) * x1) as int, e2 as int, pi);
        lemma_mul_mod_noop_left((v2 * x1) as int, e2 as int, pi);
        assert((v2 * x1) % p == ((s + x2 * c) * x1) % p);
        assert(a2 == ((s + x2 * c) * x1) as int * e2 as int) by (nonlinear_arith)
            requires
                e2 as int == pi - e1 as int,
                a2 == (s + x2 * c) as int * x1 as int * (pi - e1 as int),
        ;
    }
    assert(((t0 + t1) % p) as int == (a1 + a2) % pi) by {
        vstd::arithmetic::div_mod::lemma_add_mod_noop(a1, a2, pi);
        vstd::arithmetic::div_mod::lemma_mod_twice(a1, pi);
        vstd::arithmetic::div_mod::lemma_mod_twice(a2, pi);
    }
    let kk = (s + x2 * c) as int * x1 as int;
    assert(a1 + a2 == pi * kk + (s as int) * (x2 as int - x1 as int) * (e1 as int))
        by (nonlinear_arith)
        requires
            a1 == (s + x1 * c) as int * x2 as int * e1 as int,
            a2 == (s + x2 * c) as int * x1 as int * (pi - e1 as int),
            kk == (s + x2 * c) as int * x1 as int,
    ;
    assert((a1 + a2) % pi == ((s as int) * (x2 as int - x1 as int) * (e1 as int)) % pi) by {
        vstd::arithmetic::div_mod::lemma_mod_multiples_vanish(
            kk,
            (s as int) * (x2 as int - x1 as int) * (e1 as int),
            pi,
        );
    }
    assert(((s as int) * (x2 as int - x1 as int) * (e1 as int)) % pi == ((s as int * e1 as int)
        * d1i) % pi) by {
        assert((s as int) * (x2 as int - x1 as int) * (e1 as int) == (s as int * e1 as int) * (
        x2 as int - x1 as int)) by (nonlinear_arith);
        lemma_mul_mod_noop_right(s as int * e1 as int, x2 as int - x1 as int, pi);
        lemma_mul_mod_noop_right(s as int * e1 as int, d1i, pi);
        vstd::arithmetic::div_mod::lemma_mod_twice(x2 as int - x1 as int, pi);
    }
    assert(((s as int * e1 as int) * d1i) % pi == s as int) by {
        assert((s as int * e1 as int) * d1i == s as int * (d1i * e1 as int)) by (nonlinear_arith);
        lemma_mul_mod_noop_right(s as int, d1i * e1 as int, pi);
        assert((d1i * e1 as int) % pi == 1);
        assert(s as int * 1 == s as int);
        vstd::arithmetic::div_mod::lemma_small_mod(s, p);
    }
}


/// Threshold-two round trip: any two distinct shares of a threshold-two
/// split reconstruct the secret. For every blinding coefficient and every
/// choice of two of the `n` shares, both Lagrange denominators are
/// invertible — so reconstruction is owed success — and the interpolation at
/// zero is exactly the secret that was split.
pub proof fn lemma_two_share_roundtrip(
    shares: Seq<Share>,
    secret: u64,
    cs: Seq<nat>,
    n: int,
    p: u64,
    i: int,
    j: int,
)
    requires
        crate::numtheory::is_prime(p as nat),
        secret < p,
        n < p,
        cs.len() == 1,
        shares_match_poly(shares, split_poly(secret as nat, cs, p as nat), n, p),
        0 <= i < n,
        0 <= j < n,
        i != j,
    ensures
        dens_invertible(seq![shares[i], shares[j]], p as nat),
        lagrange_zero_of(seq![shares[i], shares[j]], p as nat) == secret as nat,
{
    let pn = p as nat;
    let s = secret as nat;
    let c = cs[0] % pn;
    let x1 = (i + 1) as nat;
    let x2 = (j + 1) as nat;
    let polyc = split_poly(s, cs, pn);
    assert(polyc.len() == 2);
    assert(polyc[0] == s);
    assert(polyc[1] == c);
    assert(c < pn);
    assert(poly_eval(polyc, x1, pn) == (s + x1 * c) % pn) by {
        lemma_eval_degree_one(polyc, x1, pn);
    }
    assert(poly_eval(polyc, x2, pn) == (s + x2 * c) % pn) by {
        lemma_eval_degree_one(polyc, x2, pn);
    }
    let pair = seq![shares[i], shares[j]];
    let ids = share_ids(pair);
    let vals = share_vals(pair);
    assert(ids.len() == 2 && vals.len() == 2);
    assert(shares[i].identifier == FieldElement::Residue((i + 1) as u64, p));
    assert(shares[j].identifier == FieldElement::Residue((j + 1) as u64, p));
    assert(ids[0] == x1 && ids[1] == x2);
    let v1 = (s + x1 * c) % pn;
    let v2 = (s + x2 * c) % pn;
    assert(v1 < pn && v2 < pn);
    assert(vals[0] == v1 && vals[1] == v2);
    lemma_two_point_interpolation(s, c, x1, x2, pn);
    let d1 = ((x2 as int - x1 as int) % pn as int) as nat;
    let d2 = ((x1 as int - x2 as int) % pn as int) as nat;
    assert(d1 < pn && d2 < pn);
    assert(1nat % pn == 1) by {
        vstd::arithmetic::div_mod::lemma_small_mod(1, pn);
    }
    assert(lag_den(ids, 0, 0, pn) == 1 && lag_den(ids, 1, 0, pn) == 1);
    assert(lag_den(ids, 0, 1, pn) == 1);
    assert(lag_den(ids, 1, 1, pn) == (1 * ((ids[0] as int - ids[1] as int) % pn as int) as nat)
        % pn);
    assert(lag_den(ids, 0, 2, pn) == (lag_den(ids, 0, 1, pn) * (((ids[1] as int - ids[0] as int)
        % pn as int) as nat)) % pn);
    assert(lag_den(ids, 0, 2, pn) == d1) by {
        vstd::arithmetic::div_mod::lemma_small_mod(d1, pn);
    }
    assert(lag_den(ids, 1, 2, pn) == lag_den(ids, 1, 1, pn));
    assert(lag_den(ids, 1, 2, pn) == d2) by {
        vstd::arithmetic::div_mod::lemma_small_mod(d2, pn);
    }
    assert(dens_invertible(pair, pn)) by {
        assert(pair.len() == 2);
        assert forall|t: int| 0 <= t < 2 implies has_inv(
            #[trigger] lag_den(share_ids(pair), t, 2, pn),
            pn,
        ) by {
            if t == 0 {
                assert(lag_den(ids, 0, 2, pn) == d1);
            } else {
                assert(lag_den(ids, 1, 2, pn) == d2);
            }
        }
    }
    assert(lag_num(ids, 0, 0, pn) == 1 && lag_num(ids, 1, 0, pn) == 1);
    assert(lag_num(ids, 0, 1, pn) == 1);
    assert(lag_num(ids, 0, 2, pn) == (1 * ids[1]) % pn);
    assert(lag_num(ids, 0, 2, pn) == x2) by {
        vstd::arithmetic::div_mod::lemma_small_mod(x2, pn);
    }
    assert(lag_num(ids, 1, 1, pn) == (1 * ids[0]) % pn);
    assert(lag_num(ids, 1, 2, pn) == lag_num(ids, 1, 1, pn));
    assert(lag_num(ids, 1, 2, pn) == x1) by {
        vstd::arithmetic::div_mod::lemma_small_mod(x1, pn);
    }
    let t0 = (((v1 * x2) % pn) * finv(d1, pn)) % pn;
    let t1 = (((v2 * x1) % pn) * finv(d2, pn)) % pn;
    assert(lag_term(ids, vals, 0, pn) == t0);
    assert(lag_term(ids, vals, 1, pn) == t1);
    assert(lag_sum(ids, vals, 0, pn) == 0);
    assert(lag_sum(ids, vals, 1, pn) == (0 + t0) % pn);
    assert(lag_sum(ids, vals, 1, pn) == t0) by {
        vstd::arithmetic::div_mod::lemma_small_mod(t0, pn);
    }
    assert(lag_sum(ids, vals, 2, pn) == (t0 + t1) % pn);
    assert((t0 + t1) % pn == s);
}

/// Degree-one evaluation: a two-coefficient polynomial at `x` is
/// `(c0 + x·c1) mod p`.
proof fn lemma_eval_degree_one(polyc: Seq<nat>, x: nat, p: nat)
    requires
        p >= 2,
        polyc.len() == 2,
        polyc[1] < p,
    ensures
        poly_eval(polyc, x, p) == (polyc[0] + x * polyc[1]) % p,
{
    let tail = polyc.subrange(1, 2);
    assert(tail.len() == 1);
    assert(tail[0] == polyc[1]);
    let tail2 = tail.subrange(1, 1);
    assert(tail2.len() == 0);
    assert(poly_eval(tail2, x, p) == 0);
    assert(poly_eval(tail, x, p) == (tail[0] + x * 0) % p);
    assert(x * 0 == 0);
    assert(poly_eval(tail, x, p) == polyc[1]) by {
        vstd::arithmetic::div_mod::lemma_small_mod(polyc[1], p);
    }
    assert(poly_eval(polyc, x, p) == (polyc[0] + x * poly_eval(tail, x, p)) % p);
}

/// Threshold-two consistency: the reconstructed value does not depend on
/// which two of the shares are chosen — every pair interpolates to the same
/// value, namely the secret.
pub proof fn lemma_two_share_consistency(
    shares: Seq<Share>,
    secret: u64,
    cs: Seq<nat>,
    n: int,
    p: u64,
    i: int,
    j: int,
    k: int,
    l: int,
)
    requires
        crate::numtheory::is_prime(p as nat),
        secret < p,
        n < p,
        cs.len() == 1,
        shares_match_poly(shares, split_poly(secret as nat, cs, p as nat), n, p),
        0 <= i < n,
        0 <= j < n,
        i != j,
        0 <= k < n,
        0 <= l < n,
        k != l,
    ensures
        lagrange_zero_of(seq![shares[i], shares[j]], p as nat) == lagrange_zero_of(
            seq![shares[k], shares[l]],
            p as nat,
        ),
{
    lemma_two_share_roundtrip(shares, secret, cs, n, p, i, j);
    lemma_two_share_roundtrip(shares, secret, cs, n, p, k, l);
}


/// A product modulo `p` of two invertible values is invertible.
proof fn lemma_has_inv_mul(a: nat, b: nat, p: nat)
    requires
        p >= 2,
        has_inv(a, p),
        has_inv(b, p),
    ensures
        has_inv((a * b) % p, p),
{
    let ea = finv(a, p);
    let eb = finv(b, p);
    assert(ea < p && (a * ea) % p == 1);
    assert(eb < p && (b * eb) % p == 1);
    let e = (ea * eb) % p;
    assert(e < p);
    assert((((a * b) % p) * e) % p == ((a * b) * (ea * eb)) % p) by {
        vstd::arithmetic::div_mod::lemma_mul_mod_noop_general(
            (a * b) as int,
            (ea * eb) as int,
            p as int,
        );
    }
    assert((a * b) * (ea * eb) == (a * ea) * (b * eb)) by (nonlinear_arith);
    assert(((a * ea) * (b * eb)) % p == (((a * ea) % p) * ((b * eb) % p)) % p) by {
        vstd::arithmetic::div_mod::lemma_mul_mod_noop_general(
            (a * ea) as int,
            (b * eb) as int,
            p as int,
        );
    }
    assert((1 * 1nat) % p == 1) by {
        vstd::arithmetic::div_mod::lemma_small_mod(1, p);
    }
    assert((((a * b) % p) * e) % p == 1);
}

/// Every partial Lagrange denominator for share `i` is invertible when the
/// identifiers are nonzero, reduced and pairwise distinct from `ids[i]`.
proof fn lemma_lag_den_invertible(ids: Seq<nat>, i: int, k: int, p: nat)
    requires
        crate::numtheory::is_prime(p),
        0 <= i < ids.len(),
        0 <= k <= ids.len(),
        forall|t: int| 0 <= t < ids.len() ==> 0 < #[trigger] ids[t] < p,
        forall|t: int| 0 <= t < ids.len() && t != i ==> #[trigger] ids[t] != ids[i],
    ensures
        has_inv(lag_den(ids, i, k, p), p),
    decreases k,
{
    if k <= 0 {
        assert(1nat % p == 1) by {
            vstd::arithmetic::div_mod::lemma_small_mod(1, p);
        }
        assert((1 * 1nat) % p == 1);
        assert(has_inv(1, p));
    } else if k - 1 == i {
        lemma_lag_den_invertible(ids, i, k - 1, p);
    } else {
        lemma_lag_den_invertible(ids, i, k - 1, p);
        let xk = ids[k - 1];
        let xi = ids[i];
        let dk = ((xk as int - xi as int) % p as int) as nat;
        assert(0 < dk < p) by {
            if xk > xi {
                vstd::arithmetic::div_mod::lemma_small_mod((xk - xi) as nat, p);
            } else {
                vstd::arithmetic::div_mod::lemma_fundamental_div_mod_converse_mod(
                    xk as int - xi as int,
                    p as int,
                    -1,
                    xk as int - xi as int + p as int,
                );
            }
        }
        crate::field::lemma_prime_inverse_exists(dk, p);
        lemma_has_inv_mul(lag_den(ids, i, k - 1, p), dk, p);
    }
}

/// Reconstruction is owed success: under a prime modulus, shares with
/// pairwise distinct identifiers have every Lagrange denominator invertible,
/// so combining them cannot fail.
pub proof fn lemma_distinct_ids_invertible(shares: Seq<Share>, p: u64)
    requires
        crate::numtheory::is_prime(p as nat),
        forall|t: int| 0 <= t < shares.len() ==> share_wf(#[trigger] shares[t], p),
        forall|t: int, u: int|
            0 <= t < u < shares.len() ==> fe_val(#[trigger] shares[t].identifier) != fe_val(
                #[trigger] shares[u].identifier,
            ),
    ensures
        dens_invertible(shares, p as nat),
{
    let ids = share_ids(shares);
    assert forall|i: int| 0 <= i < shares.len() implies has_inv(
        #[trigger] lag_den(ids, i, shares.len() as int, p as nat),
        p as nat,
    ) by {
        assert(forall|t: int| 0 <= t < ids.len() ==> 0 < #[trigger] ids[t] < p);
        assert(forall|t: int|
            0 <= t < ids.len() && t != i ==> #[trigger] ids[t] != ids[i]) by {
            assert forall|t: int| 0 <= t < ids.len() && t != i implies #[trigger] ids[t]
                != ids[i] by {
                if t < i {
                    assert(fe_val(shares[t].identifier) != fe_val(shares[i].identifier));
                } else {
                    assert(fe_val(shares[i].identifier) != fe_val(shares[t].identifier));
                }
            }
        }
        lemma_lag_den_invertible(ids, i, shares.len() as int, p as nat);
    }
}

} // verus!