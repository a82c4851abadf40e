//! Number-theoretic groundwork for the permutation tables: greatest common
//! divisors, Bezout coefficients, and Euclid's lemma.

use vstd::prelude::*;
use vstd::arithmetic::div_mod::{
    lemma_fundamental_div_mod, lemma_mod_multiples_basic, lemma_mod_self_0, lemma_small_mod,
};
use crate::primes::{divides, is_prime};

verus! {

/// Greatest common divisor, by Euclid's algorithm.
pub open spec fn gcd(a: nat, b: nat) -> nat
    decreases b,
{
    if b == 0 {
        a
    } else {
        gcd(b, a % b)
    }
}

/// The gcd divides both arguments and is positive when one of them is.
pub proof fn lemma_gcd_divides(a: nat, b: nat)
    requires
        a > 0 || b > 0,
    ensures
        gcd(a, b) > 0,
        divides(gcd(a, b), a),
        divides(gcd(a, b), b),
    decreases b,
{
    if b == 0 {
        lemma_mod_self_0(a as int);
        lemma_small_mod(0, a);
    } else {
        lemma_gcd_divides(b, a % b);
        let g = gcd(b, a % b);
        lemma_fundamental_div_mod(a as int, b as int);
        let q = a as int / b as int;
        let r = (a % b) as int;
        lemma_fundamental_div_mod(b as int, g as int);
        lemma_fundamental_div_mod(r, g as int);
        let u = b as int / g as int;
        let v = r / g as int;
        assert(b as int == g as int * u);
        assert(r == g as int * v);
        assert(a as int == (u * q + v) * g as int) by (nonlinear_arith)
            requires
                a as int == b as int * q + r,
                b as int == g as int * u,
                r == g as int * v,
        ;
        lemma_mod_multiples_basic(u * q + v, g as int);
    }
}

/// `x` and `y` witness Bezout's identity for `a` and `b`.
pub open spec fn is_bezout_pair(a: nat, b: nat, x: int, y: int) -> bool {
    a as int * x + b as int * y == gcd(a, b)
}

/// Bezout's identity: the gcd is an integer combination of its arguments.
pub proof fn lemma_bezout(a: nat, b: nat)
    ensures
        exists|x: int, y: int| #[trigger] is_bezout_pair(a, b, x, y),
    decreases b,
{
    if b == 0 {
        assert(is_bezout_pair(a, b, 1, 0)) by {
            assert(a as int * 1 + b as int * 0 == gcd(a, b));
        }
    } else {
        lemma_bezout(b, a % b);
        let (x0, y0) = choose|x0: int, y0: int| #[trigger] is_bezout_pair(b, a % b, x0, y0);
        assert(b as int * x0 + (a % b) as int * y0 == gcd(b, a % b));
        lemma_fundamental_div_mod(a as int, b as int);
        let q = a as int / b as int;
        assert(gcd(a, b) == gcd(b, a % b));
        assert(a as int * y0 + b as int * (x0 - q * y0) == gcd(a, b)) by (nonlinear_arith)
            requires
                b as int * x0 + (a % b) as int * y0 == gcd(b, a % b),
                a as int == b as int * q + (a % b) as int,
                gcd(a, b) == gcd(b, a % b),
        ;
        assert(is_bezout_pair(a, b, y0, x0 - q * y0));
    }
}

/// Euclid's lemma, in the form the permutation proof needs: if `m` is
/// coprime to `s` and divides `s * k`, it divides `k`.
pub proof fn lemma_coprime_divides(s: nat, m: nat, k: nat)
    requires
        0 < m,
        gcd(s, m) == 1,
        (s * k) % m == 0,
    ensures
        k % m == 0,
{
    lemma_bezout(s, m);
    let (x, y) = choose|x: int, y: int| #[trigger] is_bezout_pair(s, m, x, y);
    assert(s as int * x + m as int * y == 1);
    lemma_fundamental_div_mod((s * k) as int, m as int);
    let t = (s * k) as int / m as int;
    assert((s * k) as int == m as int * t);
    assert(k as int == (t * x + k as int * y) * m as int) by (nonlinear_arith)
        requires
            s as int * x + m as int * y == 1,
            (s * k) as int == m as int * t,
            (s * k) as int == s as int * k as int,
    ;
    lemma_mod_multiples_basic(t * x + k as int * y, m as int);
}

/// A positive divisor is no larger than what it divides.
pub proof fn lemma_divides_le(d: nat, n: nat)
    requires
        0 < d,
        0 < n,
        divides(d, n),
    ensures
        d <= n,
{
    if d > n {
        lemma_small_mod(n, d);
    }
}

/// Every number strictly between zero and a prime is coprime to it.
pub proof fn lemma_prime_coprime(s: nat, m: nat)
    requires
        is_prime(m),
        0 < s < m,
    ensures
        gcd(s, m) == 1,
{
    lemma_gcd_divides(s, m);
    let g = gcd(s, m);
    if g != 1 {
        lemma_divides_le(g, s);
        assert(divides(g, m));
        assert(1 < g < m);
        assert(false);
    }
}

} // verus!
