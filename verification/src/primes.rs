//! The prime sieve used to size the consistent-hash lookup table.

use vstd::prelude::*;
use vstd::arithmetic::div_mod::{lemma_fundamental_div_mod, lemma_mod_multiples_basic};
use vstd::arithmetic::div_mod::{lemma_add_mod_noop, lemma_small_mod};

verus! {

/// `factor` divides `candidate` evenly.
pub open spec fn divides(factor: nat, candidate: nat) -> bool
    recommends
        0 < factor,
{
    candidate % factor == 0
}

/// `candidate` is prime: greater than one, with no proper divisor.
pub open spec fn is_prime(candidate: nat) -> bool {
    &&& 1 < candidate
    &&& forall|f: nat| 1 < f < candidate ==> !divides(f, candidate)
}

/// Divisibility is transitive.
pub proof fn lemma_divides_transitive(a: nat, b: nat, c: nat)
    requires
        0 < a,
        0 < b,
        divides(a, b),
        divides(b, c),
    ensures
        divides(a, c),
{
    let k = b as int / a as int;
    let m = c as int / b as int;
    lemma_fundamental_div_mod(b as int, a as int);
    lemma_fundamental_div_mod(c as int, b as int);
    assert(b as int == a as int * k);
    assert(c as int == b as int * m);
    assert(c as int == (k * m) * a as int) by (nonlinear_arith)
        requires
            b as int == a as int * k,
            c as int == b as int * m,
    ;
    lemma_mod_multiples_basic(k * m, a as int);
}

/// Every composite number above one has a prime divisor below itself.
pub proof fn lemma_composite_has_prime_factor(n: nat)
    requires
        1 < n,
        !is_prime(n),
    ensures
        exists|p: nat| is_prime(p) && 1 < p < n && divides(p, n),
    decreases n,
{
    let f = choose|f: nat| 1 < f < n && divides(f, n);
    if is_prime(f) {
        assert(is_prime(f) && 1 < f < n && divides(f, n));
    } else {
        lemma_composite_has_prime_factor(f);
        let p = choose|p: nat| is_prime(p) && 1 < p < f && divides(p, f);
        lemma_divides_transitive(p, f, n);
        assert(is_prime(p) && 1 < p < n && divides(p, n));
    }
}

/// The largest prime less than or equal to `n`; zero when there is none.
pub open spec fn largest_prime_le(n: nat) -> nat
    decreases n,
{
    if n < 2 {
        0
    } else if is_prime(n) {
        n
    } else {
        largest_prime_le((n - 1) as nat)
    }
}

/// For `n` at least two, `largest_prime_le(n)` really is a prime in range.
pub proof fn lemma_largest_prime_le_bounds(n: nat)
    requires
        2 <= n,
    ensures
        2 <= largest_prime_le(n) <= n,
        is_prime(largest_prime_le(n)),
    decreases n,
{
    if !is_prime(n) {
        lemma_largest_prime_le_bounds((n - 1) as nat);
    }
}

/// A prime that no prime below `n` exceeds is the largest prime below `n`.
pub proof fn lemma_largest_prime_le_unique(n: nat, m: nat)
    requires
        is_prime(m),
        m <= n,
        forall|q: nat| is_prime(q) && q <= n ==> q <= m,
    ensures
        largest_prime_le(n) == m,
    decreases n,
{
    if is_prime(n) {
        assert(n <= m);
    } else {
        lemma_largest_prime_le_unique((n - 1) as nat, m);
    }
}

/// Returns all primes less than or equal to `limit`, in ascending order,
/// by a sieve of Eratosthenes.
pub fn primes(limit: usize) -> (res: Vec<u32>)
    requires
        limit <= u32::MAX,
        2 * limit <= usize::MAX,
    ensures
        forall|i: int| 0 <= i < res@.len() ==> is_prime(#[trigger] res@[i] as nat) && res@[i] <= limit,
        forall|i: int, j: int| 0 <= i < j < res@.len() ==> res@[i] < res@[j],
        forall|p: nat|
            is_prime(p) && p <= limit ==> exists|i: int|
                0 <= i < res@.len() && #[trigger] res@[i] as nat == p,
{
    let mut res: Vec<u32> = Vec::new();
    if limit < 2 {
        return res;
    }
    let mut sieve: Vec<bool> = Vec::new();
    while sieve.len() <= limit
        invariant
            sieve@.len() <= limit + 1,
            forall|i: int| 0 <= i < sieve@.len() ==> !sieve@[i],
        decreases limit + 1 - sieve@.len(),
    {
        sieve.push(false);
    }
    let mut candidate: usize = 2;
    while candidate <= limit
        invariant
            2 <= candidate <= limit + 1,
            2 <= limit <= u32::MAX,
            2 * limit <= usize::MAX,
            sieve@.len() == limit + 1,
            forall|m: int| 0 <= m <= limit && sieve@[m] ==> !is_prime(m as nat),
            forall|d: int, k: int|
                2 <= d < candidate && !sieve@[d] && 2 <= k && #[trigger] (k * d) <= limit
                    ==> sieve@[k * d],
            forall|i: int|
                0 <= i < res@.len() ==> is_prime(#[trigger] res@[i] as nat) && 2 <= res@[i]
                    < candidate,
            forall|i: int, j: int| 0 <= i < j < res@.len() ==> res@[i] < res@[j],
            forall|p: nat|
                is_prime(p) && p < candidate ==> exists|i: int|
                    0 <= i < res@.len() && #[trigger] res@[i] as nat == p,
        decreases limit + 1 - candidate,
    {
        if !sieve[candidate] {
            proof {
                if !is_prime(candidate as nat) {
                    lemma_composite_has_prime_factor(candidate as nat);
                    let p = choose|p: nat|
                        is_prime(p) && 1 < p < candidate && divides(p, candidate as nat);
                    lemma_fundamental_div_mod(candidate as int, p as int);
                    let k = candidate as int / p as int;
                    assert(candidate as int == p as int * k);
                    assert(k >= 2) by (nonlinear_arith)
                        requires
                            candidate as int == p as int * k,
                            1 < p < candidate,
                    ;
                    assert(k * p as int == candidate as int) by (nonlinear_arith)
                        requires
                            candidate as int == p as int * k,
                    ;
                    assert(!sieve@[p as int]);
                    assert(sieve@[k * p as int]);
                    assert(false);
                }
            }
            let ghost res_before = res@;
            res.push(candidate as u32);
            proof {
                assert(res@[res@.len() - 1] as nat == candidate as nat);
                assert forall|p: nat| is_prime(p) && p < candidate + 1 implies exists|i: int|
                    0 <= i < res@.len() && #[trigger] res@[i] as nat == p by {
                    if p < candidate as nat {
                        let i = choose|i: int|
                            0 <= i < res_before.len() && res_before[i] as nat == p;
                        assert(res@[i] as nat == p);
                    } else {
                        assert(res@[res@.len() - 1] as nat == p);
                    }
                }
            }
            let ghost sieve_before = sieve@;
            proof {
                lemma_mod_multiples_basic(2, candidate as int);
            }
            let mut composite: usize = 2 * candidate;
            while composite <= limit
                invariant
                    2 <= candidate <= limit,
                    2 * limit <= usize::MAX,
                    sieve@.len() == limit + 1,
                    2 * candidate <= composite,
                    composite % candidate == 0,
                    composite <= limit + candidate,
                    forall|m: int| #![trigger sieve@[m]]
                        0 <= m <= limit ==> (sieve@[m] <==> (sieve_before[m] || (2 * candidate <= m
                            < composite && m % candidate as int == 0))),
                decreases limit + candidate - composite,
            {
                let ghost prev = sieve@;
                let ghost c0 = composite as int;
                sieve[composite] = true;
                proof {
                    lemma_add_mod_noop(c0, candidate as int, candidate as int);
                    lemma_small_mod(0, candidate as nat);
                }
                composite = composite + candidate;
                proof {
                    assert forall|m: int| #![trigger sieve@[m]] 0 <= m <= limit implies (sieve@[m]
                        <==> (sieve_before[m] || (2 * candidate <= m < composite && m
                        % candidate as int == 0))) by {
                        if m == c0 {
                            assert(sieve@[m]);
                        } else {
                            assert(sieve@[m] == prev[m]);
                            if c0 < m < composite {
                                lemma_add_mod_noop(c0, m - c0, candidate as int);
                                lemma_small_mod((m - c0) as nat, candidate as nat);
                                assert(m % candidate as int == m - c0);
                            }
                        }
                    }
                }
            }
            proof {
                // every proper multiple of `candidate` within `limit` is now marked
                assert forall|k: int| 2 <= k && #[trigger] (k * candidate as int) <= limit
                    implies sieve@[k * candidate as int] by {
                    lemma_mod_multiples_basic(k, candidate as int);
                    assert(2 * candidate as int <= k * candidate as int) by (nonlinear_arith)
                        requires
                            2 <= k,
                            2 <= candidate,
                    ;
                }
                // new marks are composite
                assert forall|m: int| 0 <= m <= limit && sieve@[m] implies !is_prime(m as nat) by {
                    if !sieve_before[m] {
                        assert(m % candidate as int == 0);
                        assert(2 * candidate <= m);
                        assert(divides(candidate as nat, m as nat));
                        assert(1 < candidate < m);
                    }
                }
                // completeness of the marks carries over to the next candidate
                assert forall|d: int, k: int|
                    2 <= d < candidate + 1 && !sieve@[d] && 2 <= k && #[trigger] (k * d) <= limit
                    implies sieve@[k * d] by {
                    assert(0 < k * d) by (nonlinear_arith)
                        requires
                            2 <= d,
                            2 <= k,
                    ;
                    if d == candidate {
                        assert(sieve@[k * candidate as int]);
                    } else {
                        assert(!sieve_before[d]);
                        assert(sieve_before[k * d]);
                    }
                }
            }
        }
        candidate = candidate + 1;
    }
    res
}

} // verus!
