//! Field elements: either a bare 64-bit integer or a residue bound to a
//! 64-bit odd-prime modulus, with total add/sub/mul, inversion for residues,
//! and a canonical big-endian byte encoding.

use vstd::prelude::*;
use vstd::arithmetic::div_mod::{
    lemma_small_mod, lemma_add_mod_noop_right, lemma_mul_mod_noop_right,
    lemma_sub_mod_noop_right, lemma_mul_mod_noop_left, lemma_sub_mod_noop,
    lemma_mod_twice, lemma_mod_division_less_than_divisor,
    lemma_fundamental_div_mod, lemma_fundamental_div_mod_converse_mod,
};
use vstd::arithmetic::mul::lemma_mul_is_commutative;
use crate::numtheory::{gcd, is_prime, lemma_gcd_pos, lemma_gcd_divides, lemma_prime_coprime};
use vstd::arithmetic::mul::lemma_mul_is_associative;
use crate::RecryptError;

verus! {

/// A value of the share arithmetic: a plain 64-bit integer used for
/// bookkeeping (identifiers, generator steps), or a residue reduced modulo a
/// fixed modulus. Arithmetic between a residue and a plain integer lifts the
/// integer into the residue's modulus; arithmetic between two residues is
/// only meaningful when their moduli agree.
#[derive(Debug, Clone, Copy, PartialEq, Eq, Structural)]
pub enum FieldElement {
    /// A bare integer with no modulus attached.
    Integer(u64),
    /// A reduced value together with its modulus.
    Residue(u64, u64),
}

/// Well-formed: a residue is reduced and its modulus is at least two.
pub open spec fn fe_wf(e: FieldElement) -> bool {
    match e {
        FieldElement::Integer(_) => true,
        FieldElement::Residue(v, p) => p >= 2 && v < p,
    }
}

/// The canonical integer value an element stands for.
pub open spec fn fe_val(e: FieldElement) -> nat {
    match e {
        FieldElement::Integer(i) => i as nat,
        FieldElement::Residue(v, _) => v as nat,
    }
}

/// The modulus an element is bound to, if any.
pub open spec fn fe_modulus(e: FieldElement) -> Option<u64> {
    match e {
        FieldElement::Integer(_) => None,
        FieldElement::Residue(_, p) => Some(p),
    }
}

/// Two elements may meet in one operation: if both are residues, the moduli
/// agree. (Mixing moduli is a caller error, ruled out by precondition.)
pub open spec fn fe_compat(a: FieldElement, b: FieldElement) -> bool {
    match (a, b) {
        (FieldElement::Residue(_, p0), FieldElement::Residue(_, p1)) => p0 == p1,
        _ => true,
    }
}

/// The modulus governing a binary operation, if either side carries one.
pub open spec fn fe_op_modulus(a: FieldElement, b: FieldElement) -> Option<u64> {
    match fe_modulus(a) {
        Some(p) => Some(p),
        None => fe_modulus(b),
    }
}

/// What addition returns: checked integer addition on two plain integers
/// (`None` on 64-bit overflow), modular addition as soon as a modulus is
/// present.
pub open spec fn fe_add_spec(a: FieldElement, b: FieldElement) -> Option<FieldElement> {
    match fe_op_modulus(a, b) {
        None => if fe_val(a) + fe_val(b) <= u64::MAX {
            Some(FieldElement::Integer((fe_val(a) + fe_val(b)) as u64))
        } else {
            None
        },
        Some(p) => Some(FieldElement::Residue((((fe_val(a) + fe_val(b)) as int % p as int)) as u64, p)),
    }
}

/// What subtraction returns, under the same lifting policy.
pub open spec fn fe_sub_spec(a: FieldElement, b: FieldElement) -> Option<FieldElement> {
    match fe_op_modulus(a, b) {
        None => if fe_val(b) <= fe_val(a) {
            Some(FieldElement::Integer((fe_val(a) - fe_val(b)) as u64))
        } else {
            None
        },
        Some(p) => Some(
            FieldElement::Residue(
                ((fe_val(a) as int - fe_val(b) as int) % p as int) as u64,
                p,
            ),
        ),
    }
}

/// What multiplication returns, under the same lifting policy.
pub open spec fn fe_mul_spec(a: FieldElement, b: FieldElement) -> Option<FieldElement> {
    match fe_op_modulus(a, b) {
        None => if fe_val(a) * fe_val(b) <= u64::MAX {
            Some(FieldElement::Integer((fe_val(a) * fe_val(b)) as u64))
        } else {
            None
        },
        Some(p) => Some(FieldElement::Residue((((fe_val(a) * fe_val(b)) as int % p as int)) as u64, p)),
    }
}

impl FieldElement {
    /// The additive identity, as a plain integer (no modulus is known yet).
    pub fn zero() -> (r: FieldElement)
        ensures
            r == FieldElement::Integer(0u64),
    {
        FieldElement::Integer(0)
    }

    /// The multiplicative identity, as a plain integer.
    pub fn one() -> (r: FieldElement)
        ensures
            r == FieldElement::Integer(1u64),
    {
        FieldElement::Integer(1)
    }

    /// Lift an integer into the field of the given modulus.
    pub fn new(value: u64, modulus: u64) -> (r: FieldElement)
        requires
            modulus >= 2,
        ensures
            r == FieldElement::Residue((value as nat % modulus as nat) as u64, modulus),
            fe_wf(r),
    {
        proof {
            lemma_mod_division_less_than_divisor(value as int, modulus as int);
        }
        FieldElement::Residue(value % modulus, modulus)
    }

    /// Addition, total over both variants.
    pub fn add(&self, rhs: &FieldElement) -> (r: Result<FieldElement, RecryptError>)
        requires
            fe_wf(*self),
            fe_wf(*rhs),
            fe_compat(*self, *rhs),
        ensures
            match r {
                Ok(e) => fe_add_spec(*self, *rhs) == Some(e) && fe_wf(e) && fe_compat(
                    *self,
                    e,
                ) && fe_compat(*rhs, e),
                Err(err) => fe_add_spec(*self, *rhs) is None && err == RecryptError::IntegerOverflow,
            },
    {
        match (self, rhs) {
            (FieldElement::Integer(i0), FieldElement::Integer(i1)) => {
                if *i0 <= u64::MAX - *i1 {
                    Ok(FieldElement::Integer(*i0 + *i1))
                } else {
                    Err(RecryptError::IntegerOverflow)
                }
            },
            (FieldElement::Residue(v0, p), FieldElement::Residue(v1, _)) => {
                Ok(FieldElement::Residue(add_mod(*v0, *v1, *p), *p))
            },
            (FieldElement::Residue(v, p), FieldElement::Integer(i)) => {
                proof {
                    lemma_add_mod_noop_right(*v as int, *i as int, *p as int);
                    lemma_mod_division_less_than_divisor(*i as int, *p as int);
                }
                Ok(FieldElement::Residue(add_mod(*v, *i % *p, *p), *p))
            },
            (FieldElement::Integer(i), FieldElement::Residue(v, p)) => {
                proof {
                    lemma_add_mod_noop_right(*v as int, *i as int, *p as int);
                    lemma_mod_division_less_than_divisor(*i as int, *p as int);
                }
                Ok(FieldElement::Residue(add_mod(*i % *p, *v, *p), *p))
            },
        }
    }

    /// Subtraction, total over both variants.
    pub fn sub(&self, rhs: &FieldElement) -> (r: Result<FieldElement, RecryptError>)
        requires
            fe_wf(*self),
            fe_wf(*rhs),
            fe_compat(*self, *rhs),
        ensures
            match r {
                Ok(e) => fe_sub_spec(*self, *rhs) == Some(e) && fe_wf(e),
                Err(err) => fe_sub_spec(*self, *rhs) is None && err == RecryptError::IntegerOverflow,
            },
    {
        match (self, rhs) {
            (FieldElement::Integer(i0), FieldElement::Integer(i1)) => {
                if *i1 <= *i0 {
                    Ok(FieldElement::Integer(*i0 - *i1))
                } else {
                    Err(RecryptError::IntegerOverflow)
                }
            },
            (FieldElement::Residue(v0, p), FieldElement::Residue(v1, _)) => {
                Ok(FieldElement::Residue(sub_mod(*v0, *v1, *p), *p))
            },
            (FieldElement::Residue(v, p), FieldElement::Integer(i)) => {
                proof {
                    lemma_sub_mod_noop_right(*v as int, *i as int, *p as int);
                    lemma_mod_division_less_than_divisor(*i as int, *p as int);
                }
                Ok(FieldElement::Residue(sub_mod(*v, *i % *p, *p), *p))
            },
            (FieldElement::Integer(i), FieldElement::Residue(v, p)) => {
                proof {
                    lemma_sub_mod_noop(*i as int, *v as int, *p as int);
                    lemma_mod_twice(*v as int, *p as int);
                    lemma_small_mod(*v as nat, *p as nat);
                    lemma_mod_division_less_than_divisor(*i as int, *p as int);
                }
                Ok(FieldElement::Residue(sub_mod(*i % *p, *v, *p), *p))
            },
        }
    }

    /// Multiplication, total over both variants.
    pub fn mul(&self, rhs: &FieldElement) -> (r: Result<FieldElement, RecryptError>)
        requires
            fe_wf(*self),
            fe_wf(*rhs),
            fe_compat(*self, *rhs),
        ensures
            match r {
                Ok(e) => fe_mul_spec(*self, *rhs) == Some(e) && fe_wf(e),
                Err(err) => fe_mul_spec(*self, *rhs) is None && err == RecryptError::IntegerOverflow,
            },
    {
        match (self, rhs) {
            (FieldElement::Integer(i0), FieldElement::Integer(i1)) => {
                proof {
                    mul_in_u128_range(*i0, *i1);
                }
                let prod: u128 = (*i0 as u128) * (*i1 as u128);
                if prod <= u64::MAX as u128 {
                    Ok(FieldElement::Integer(prod as u64))
                } else {
                    Err(RecryptError::IntegerOverflow)
                }
            },
            (FieldElement::Residue(v0, p), FieldElement::Residue(v1, _)) => {
                Ok(FieldElement::Residue(mul_mod(*v0, *v1, *p), *p))
            },
            (FieldElement::Residue(v, p), FieldElement::Integer(i)) => {
                proof {
                    lemma_mul_mod_noop_right(*v as int, *i as int, *p as int);
                    lemma_mod_division_less_than_divisor(*i as int, *p as int);
                }
                Ok(FieldElement::Residue(mul_mod(*v, *i % *p, *p), *p))
            },
            (FieldElement::Integer(i), FieldElement::Residue(v, p)) => {
                proof {
                    lemma_mul_mod_noop_left(*i as int, *v as int, *p as int);
                    lemma_mod_division_less_than_divisor(*i as int, *p as int);
                }
                Ok(FieldElement::Residue(mul_mod(*i % *p, *v, *p), *p))
            },
        }
    }

    /// True exactly when the element's reduced representation is zero. A
    /// residue is inspected directly, with no reduction back out.
    pub fn is_zero(&self) -> (r: bool)
        ensures
            r == (fe_val(*self) == 0),
    {
        match self {
            FieldElement::Integer(i) => *i == 0,
            FieldElement::Residue(v, _) => *v == 0,
        }
    }

    /// The canonical plain-integer value.
    pub fn retrieve(&self) -> (r: u64)
        ensures
            r as nat == fe_val(*self),
    {
        match self {
            FieldElement::Integer(i) => *i,
            FieldElement::Residue(v, _) => *v,
        }
    }

    /// Modular inverse. A plain integer has no modulus and is never
    /// invertible; a residue is invertible exactly when its value is coprime
    /// to the modulus — for a prime modulus, exactly when it is nonzero.
    pub fn invert(&self) -> (r: Result<FieldElement, RecryptError>)
        requires
            fe_wf(*self),
        ensures
            match r {
                Ok(w) => *self matches FieldElement::Residue(v, p) && w matches FieldElement::Residue(wv, wp)
                    && wp == p && wv < p && gcd(p as nat, v as nat) == 1 && (v as nat * wv as nat)
                    % (p as nat) == 1,
                Err(err) => err == RecryptError::NotInvertible && match *self {
                    FieldElement::Integer(_) => true,
                    FieldElement::Residue(v, p) => gcd(p as nat, v as nat) != 1,
                },
            },
    {
        match self {
            FieldElement::Integer(_) => Err(RecryptError::NotInvertible),
            FieldElement::Residue(v, p) => {
                match invert_mod(*v, *p) {
                    Some(w) => Ok(FieldElement::Residue(w, *p)),
                    None => Err(RecryptError::NotInvertible),
                }
            },
        }
    }
}

/// For a prime modulus every nonzero residue is invertible; `invert` is owed
/// success exactly on those elements.
pub proof fn lemma_prime_residue_invertible(v: u64, p: u64)
    requires
        is_prime(p as nat),
        0 < v < p,
    ensures
        gcd(p as nat, v as nat) == 1,
{
    lemma_prime_coprime(p as nat, v as nat);
}

/// `(a + b) % p` computed without overflow.
pub fn add_mod(a: u64, b: u64, p: u64) -> (r: u64)
    requires
        p >= 2,
        a < p,
        b < p,
    ensures
        r as int == (a + b) as int % p as int,
        r < p,
{
    let s: u128 = a as u128 + b as u128;
    let m: u128 = s % (p as u128);
    proof {
        lemma_mod_division_less_than_divisor(s as int, p as int);
    }
    m as u64
}

/// `(a - b) mod p` computed without overflow, the result in `[0, p)`.
pub fn sub_mod(a: u64, b: u64, p: u64) -> (r: u64)
    requires
        p >= 2,
        a < p,
        b < p,
    ensures
        r as int == (a as int - b as int) % p as int,
        r < p,
{
    if b <= a {
        proof {
            lemma_small_mod((a - b) as nat, p as nat);
        }
        a - b
    } else {
        proof {
            lemma_fundamental_div_mod_converse_mod(
                a as int - b as int,
                p as int,
                -1,
                a as int - b as int + p as int,
            );
        }
        a + (p - b)
    }
}

/// Products of two 64-bit values stay inside 128 bits.
proof fn mul_in_u128_range(a: u64, b: u64)
    ensures
        a as int * b as int <= u128::MAX as int,
        a as int * b as int >= 0,
{
    assert(a as int * b as int <= u64::MAX as int * u64::MAX as int) by (nonlinear_arith)
        requires
            0 <= a <= u64::MAX,
            0 <= b <= u64::MAX,
    ;
    assert(a as int * b as int >= 0) by (nonlinear_arith)
        requires
            0 <= a,
            0 <= b,
    ;
}

/// `(a * b) % p` computed through a 128-bit intermediate.
pub fn mul_mod(a: u64, b: u64, p: u64) -> (r: u64)
    requires
        p >= 2,
    ensures
        r as int == (a as int * b as int) % p as int,
        r < p,
{
    proof {
        mul_in_u128_range(a, b);
    }
    let prod: u128 = (a as u128) * (b as u128);
    let m: u128 = prod % (p as u128);
    proof {
        lemma_mod_division_less_than_divisor(prod as int, p as int);
    }
    m as u64
}

/// `a` has a multiplicative inverse modulo `p`.
pub open spec fn has_inv(a: nat, p: nat) -> bool {
    exists|w: nat| w < p && #[trigger] ((a * w) % p) == 1
}

/// The multiplicative inverse of `a` modulo `p` (meaningful when one exists;
/// inverses are unique modulo `p` whenever they exist).
pub open spec fn finv(a: nat, p: nat) -> nat {
    choose|w: nat| w < p && #[trigger] ((a * w) % p) == 1
}

/// Inverses modulo `p` are unique.
pub proof fn lemma_inv_unique(a: nat, p: nat, w1: nat, w2: nat)
    requires
        p >= 2,
        w1 < p,
        w2 < p,
        (a * w1) % p == 1,
        (a * w2) % p == 1,
    ensures
        w1 == w2,
{
    let ai = a as int;
    let x1 = w1 as int;
    let x2 = w2 as int;
    let pi = p as int;
    assert((x1 * ((ai * x2) % pi)) % pi == (x1 * (ai * x2)) % pi) by {
        lemma_mul_mod_noop_right(x1, ai * x2, pi);
    }
    assert(x1 * (ai * x2) == (x1 * ai) * x2) by {
        lemma_mul_is_associative(x1, ai, x2);
    }
    assert(((x1 * ai) * x2) % pi == (((x1 * ai) % pi) * x2) % pi) by {
        lemma_mul_mod_noop_left(x1 * ai, x2, pi);
    }
    assert(x1 * ai == ai * x1) by {
        lemma_mul_is_commutative(x1, ai);
    }
    assert((1 * x2) % pi == x2) by {
        lemma_small_mod(w2, p);
    }
    assert((x1 * 1) % pi == x1) by {
        lemma_small_mod(w1, p);
    }
}

/// Pins the executable inverse to the specification-level `finv`.
pub proof fn lemma_finv_is(a: nat, p: nat, w: nat)
    requires
        p >= 2,
        w < p,
        (a * w) % p == 1,
    ensures
        has_inv(a, p),
        finv(a, p) == w,
{
    assert(has_inv(a, p));
    let w2 = finv(a, p);
    assert(w2 < p && (a * w2) % p == 1);
    lemma_inv_unique(a, p, w, w2);
}

/// A value with an inverse modulo `p` is coprime to `p`.
pub proof fn lemma_coprime_if_invertible(a: nat, w: nat, p: nat)
    requires
        p >= 2,
        (a * w) % p == 1,
    ensures
        gcd(p, a) == 1,
{
    if a == 0 {
        assert(a * w == 0);
        lemma_small_mod(0, p);
        assert(false);
    }
    let g = gcd(p, a);
    lemma_gcd_pos(p, a);
    lemma_gcd_divides(p, a);
    if g >= 2 {
        let gi = g as int;
        let q = (a * w) as int / p as int;
        lemma_fundamental_div_mod((a * w) as int, p as int);
        assert((a * w) as int == p as int * q + 1);
        assert(((a as int) * (w as int)) % gi == 0) by {
            lemma_mul_mod_noop_left(a as int, w as int, gi);
            assert(a as int % gi == 0);
            assert((0 as int * w as int) % gi == 0) by {
                lemma_small_mod(0, g);
            }
        }
        assert((p as int * q) % gi == 0) by {
            lemma_mul_mod_noop_left(p as int, q, gi);
            assert(p as int % gi == 0);
            assert((0 as int * q) % gi == 0) by {
                lemma_small_mod(0, g);
            }
        }
        assert(1 as int % gi == 0) by {
            lemma_sub_mod_noop((a * w) as int, p as int * q, gi);
            assert(((a * w) as int - p as int * q) % gi == (0 as int - 0 as int) % gi);
            assert((0 as int - 0 as int) % gi == 0) by {
                lemma_small_mod(0, g);
            }
        }
        assert(1 as int % gi == 1) by {
            lemma_small_mod(1, g);
        }
        assert(false);
    }
}

/// No inverse exists modulo `p` for a value not coprime to `p`.
pub proof fn lemma_no_inv(a: nat, p: nat)
    requires
        p >= 2,
        gcd(p, a) != 1,
    ensures
        !has_inv(a, p),
{
    if has_inv(a, p) {
        let w = choose|w: nat| w < p && #[trigger] ((a * w) % p) == 1;
        lemma_coprime_if_invertible(a, w, p);
    }
}

/// One step of the extended-Euclid bookkeeping keeps the congruence
/// `r ≡ t·v (mod p)` for the freshly computed remainder and coefficient.
proof fn lemma_euclid_step(p: int, v: int, r0: int, r1: int, t0: int, t1: int, q: int, t2: int)
    requires
        p >= 2,
        r1 > 0,
        q == r0 / r1,
        r0 % p == (t0 * v) % p,
        r1 % p == (t1 * v) % p,
        t2 % p == (t0 - q * t1) % p,
    ensures
        (r0 % r1) % p == (t2 * v) % p,
{
    lemma_fundamental_div_mod(r0, r1);
    assert(r0 % r1 == r0 - q * r1);
    assert((r0 - q * r1) % p == (t0 * v - q * (t1 * v)) % p) by {
        lemma_sub_mod_noop(r0, q * r1, p);
        lemma_mul_mod_noop_right(q, r1, p);
        lemma_mul_mod_noop_right(q, t1 * v, p);
        assert((q * r1) % p == (q * (r1 % p)) % p);
        assert((q * (t1 * v)) % p == (q * ((t1 * v) % p)) % p);
        lemma_sub_mod_noop(t0 * v, q * (t1 * v), p);
    }
    assert(t0 * v - q * (t1 * v) == (t0 - q * t1) * v) by (nonlinear_arith);
    assert((t2 * v) % p == ((t0 - q * t1) * v) % p) by {
        lemma_mul_mod_noop_left(t2, v, p);
        lemma_mul_mod_noop_left(t0 - q * t1, v, p);
    }
}

/// The inverse of `v` modulo `p` by the extended Euclidean algorithm,
/// tracking the Bezout coefficient of `v` reduced modulo `p`. Returns the
/// inverse exactly when `gcd(p, v) == 1`.
pub fn invert_mod(v: u64, p: u64) -> (r: Option<u64>)
    requires
        p >= 2,
        v < p,
    ensures
        match r {
            Some(w) => gcd(p as nat, v as nat) == 1 && w < p && (v as nat * w as nat) % p as nat
                == 1,
            None => gcd(p as nat, v as nat) != 1,
        },
{
    let mut r0: u64 = p;
    let mut r1: u64 = v;
    let mut t0: u64 = 0;
    let mut t1: u64 = 1 % p;
    proof {
        vstd::arithmetic::div_mod::lemma_mod_self_0(p as int);
        assert(r0 % p == 0);
        lemma_small_mod(0, p as nat);
        assert((0 as int * v as int) % p as int == 0);
        lemma_small_mod(1, p as nat);
        assert(t1 == 1);
        assert(1 as int * v as int == v as int);
        lemma_small_mod(v as nat, p as nat);
    }
    while r1 != 0
        invariant
            p >= 2,
            r0 > 0,
            r0 <= p,
            r1 < r0,
            t0 < p,
            t1 < p,
            gcd(r0 as nat, r1 as nat) == gcd(p as nat, v as nat),
            r0 as int % p as int == (t0 as int * v as int) % p as int,
            r1 as int % p as int == (t1 as int * v as int) % p as int,
        decreases r1,
    {
        let q: u64 = r0 / r1;
        let r2: u64 = r0 % r1;
        let qt: u64 = mul_mod(q, t1, p);
        let t2: u64 = sub_mod(t0, qt, p);
        proof {
            crate::numtheory::lemma_gcd_step(r0 as nat, r1 as nat);
            assert(t2 as int % p as int == (t0 as int - q as int * t1 as int) % p as int) by {
                lemma_small_mod(t2 as nat, p as nat);
                lemma_sub_mod_noop_right(t0 as int, qt as int, p as int);
                lemma_sub_mod_noop_right(t0 as int, q as int * t1 as int, p as int);
                lemma_mod_twice(q as int * t1 as int, p as int);
            }
            lemma_euclid_step(
                p as int,
                v as int,
                r0 as int,
                r1 as int,
                t0 as int,
                t1 as int,
                q as int,
                t2 as int,
            );
            lemma_mod_division_less_than_divisor(r0 as int, r1 as int);
            lemma_small_mod(r1 as nat, p as nat);
        }
        r0 = r1;
        r1 = r2;
        t0 = t1;
        t1 = t2;
    }
    if r0 == 1 {
        proof {
            assert(gcd(p as nat, v as nat) == 1);
            lemma_small_mod(1, p as nat);
            assert((t0 as int * v as int) % p as int == 1);
            assert(v as nat * t0 as nat == (t0 as int * v as int)) by {
                lemma_mul_is_commutative(v as int, t0 as int);
            }
        }
        Some(t0)
    } else {
        None
    }
}


/// The descent behind inverse existence: from any Euclid state whose
/// remainders carry Bezout coefficients for `v` modulo `p`, an inverse of
/// `v` exists once the greatest common divisor is one.
proof fn lemma_euclid_descent(p: nat, v: nat, r0: nat, r1: nat, t0: nat, t1: nat)
    requires
        p >= 2,
        r0 > 0,
        r0 <= p,
        r1 < r0,
        t0 < p,
        t1 < p,
        gcd(r0, r1) == gcd(p, v),
        gcd(p, v) == 1,
        r0 as int % p as int == (t0 as int * v as int) % p as int,
        r1 as int % p as int == (t1 as int * v as int) % p as int,
    ensures
        has_inv(v, p),
    decreases r1,
{
    if r1 == 0 {
        assert(gcd(r0, 0) == r0);
        lemma_small_mod(1, p);
        assert((t0 as int * v as int) % p as int == 1);
        assert((v as nat * t0 as nat) % p == 1) by {
            lemma_mul_is_commutative(t0 as int, v as int);
        }
        assert(has_inv(v, p));
    } else {
        let q = r0 / r1;
        let r2 = r0 % r1;
        let qt = (q * t1) % p;
        lemma_mod_division_less_than_divisor((q * t1) as int, p as int);
        let t2: nat = if t0 >= qt {
            (t0 - qt) as nat
        } else {
            (t0 + p - qt) as nat
        };
        assert(t2 < p);
        assert(t2 as int % p as int == (t0 as int - q as int * t1 as int) % p as int) by {
            if t0 >= qt {
                lemma_small_mod((t0 - qt) as nat, p);
            } else {
                lemma_fundamental_div_mod_converse_mod(
                    t0 as int - qt as int,
                    p as int,
                    -1,
                    t0 as int - qt as int + p as int,
                );
            }
            lemma_small_mod(t2, p);
            lemma_sub_mod_noop_right(t0 as int, (q * t1) as int, p as int);
            lemma_mod_twice((q * t1) as int, p as int);
        }
        crate::numtheory::lemma_gcd_step(r0, r1);
        lemma_euclid_step(
            p as int,
            v as int,
            r0 as int,
            r1 as int,
            t0 as int,
            t1 as int,
            q as int,
            t2 as int,
        );
        lemma_mod_division_less_than_divisor(r0 as int, r1 as int);
        lemma_small_mod(r1, p);
        lemma_euclid_descent(p, v, r1, r2, t1, t2);
    }
}

/// Under a prime modulus every nonzero residue has a multiplicative inverse
/// — reconstruction is owed success whenever the identifiers are distinct.
pub proof fn lemma_prime_inverse_exists(v: nat, p: nat)
    requires
        is_prime(p),
        0 < v < p,
    ensures
        has_inv(v, p),
{
    lemma_prime_coprime(p, v);
    vstd::arithmetic::div_mod::lemma_mod_self_0(p as int);
    lemma_small_mod(0, p);
    lemma_small_mod(1, p);
    lemma_small_mod(v, p);
    assert(p as int % p as int == (0 as int * v as int) % p as int);
    assert(v as int % p as int == (1 as int * v as int) % p as int);
    lemma_euclid_descent(p, v, p, v, 0, 1);
}

} // verus!