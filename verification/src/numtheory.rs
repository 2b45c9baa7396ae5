//! Divisibility, greatest common divisors and primality, as far as the
//! modular-inverse computation of the field layer needs them.

use vstd::prelude::*;
use vstd::arithmetic::div_mod::{
    lemma_fundamental_div_mod, lemma_mul_mod_noop_general, lemma_small_mod,
    lemma_add_mod_noop, lemma_mod_self_0, lemma_mod_twice,
    lemma_mod_division_less_than_divisor,
};
use vstd::arithmetic::mul::{lemma_mul_is_commutative, lemma_mul_is_associative};

verus! {

/// `d` divides `n` (for a positive divisor).
pub open spec fn divides(d: nat, n: nat) -> bool
    recommends
        d > 0,
{
    n % d == 0
}

/// Euclid's greatest common divisor.
pub open spec fn gcd(a: nat, b: nat) -> nat
    decreases b,
{
    if b == 0 {
        a
    } else {
        gcd(b, a % b)
    }
}

/// `p` has no divisor strictly between one and itself.
pub open spec fn is_prime(p: nat) -> bool {
    p >= 2 && forall|d: nat| 1 < d < p ==> #[trigger] (p % d) != 0
}

/// The greatest common divisor of two numbers, the first positive, is positive.
pub proof fn lemma_gcd_pos(a: nat, b: nat)
    requires
        a > 0,
    ensures
        gcd(a, b) > 0,
    decreases b,
{
    if b != 0 {
        lemma_mod_division_less_than_divisor(a as int, b as int);
        lemma_gcd_pos(b, a % b);
    }
}

/// A common divisor of `b` and of `a % b` divides `a` as well.
proof fn lemma_divides_mod_step(d: nat, a: nat, b: nat)
    requires
        d > 0,
        b > 0,
        divides(d, b),
        divides(d, a % b),
    ensures
        divides(d, a),
{
    lemma_fundamental_div_mod(a as int, b as int);
    assert(a == b * (a as int / b as int) + a % b);
    let q = a as int / b as int;
    assert(q >= 0) by {
        vstd::arithmetic::div_mod::lemma_div_pos_is_pos(a as int, b as int);
    }
    lemma_add_mod_noop(b * q, (a % b) as int, d as int);
    lemma_mul_mod_noop_general(b as int, q, d as int);
    assert((b * q) % d as int == ((b % d) * q) % d as int);
    assert((b % d) * q == 0) by {
        lemma_mul_is_commutative((b % d) as int, q);
    }
    lemma_mod_self_0(d as int);
    assert(0int % d as int == 0) by {
        lemma_small_mod(0, d);
    }
    lemma_mod_twice((a % b) as int, d as int);
}

/// The greatest common divisor divides both of its arguments.
pub proof fn lemma_gcd_divides(a: nat, b: nat)
    requires
        a > 0,
    ensures
        divides(gcd(a, b), a),
        b > 0 ==> divides(gcd(a, b), b),
    decreases b,
{
    lemma_gcd_pos(a, b);
    if b == 0 {
        lemma_mod_self_0(a as int);
    } else {
        lemma_mod_division_less_than_divisor(a as int, b as int);
        let g = gcd(b, a % b);
        lemma_gcd_pos(b, a % b);
        if a % b == 0 {
            lemma_gcd_divides(b, 0);
            lemma_small_mod(0, g);
            lemma_divides_mod_step(g, a, b);
        } else {
            lemma_gcd_divides(b, a % b);
            lemma_divides_mod_step(g, a, b);
        }
    }
}

/// A positive divisor of a positive number is no larger than it.
pub proof fn lemma_divisor_le(d: nat, n: nat)
    requires
        d > 0,
        n > 0,
        divides(d, n),
    ensures
        d <= n,
{
    if d > n {
        lemma_small_mod(n, d);
    }
}

/// A prime is coprime to every smaller positive number.
pub proof fn lemma_prime_coprime(p: nat, a: nat)
    requires
        is_prime(p),
        0 < a < p,
    ensures
        gcd(p, a) == 1,
{
    let g = gcd(p, a);
    lemma_gcd_pos(p, a);
    lemma_gcd_divides(p, a);
    lemma_divisor_le(g, a);
    if g > 1 {
        assert(1 < g < p);
        assert(p % g != 0);
    }
}

/// Unfolding rule: one step of Euclid's recursion keeps the gcd.
pub proof fn lemma_gcd_step(a: nat, b: nat)
    requires
        b > 0,
    ensures
        gcd(a, b) == gcd(b, a % b),
{
}

} // verus!
