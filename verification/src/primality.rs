//! The primality predicate and its executable trial-division tester.

use vstd::prelude::*;
use vstd::arithmetic::div_mod::{
    lemma_fundamental_div_mod, lemma_mod_multiples_basic, lemma_small_mod,
};
use vstd::arithmetic::mul::{lemma_mul_is_associative, lemma_mul_is_commutative};

verus! {

/// A number is prime when it is at least 2 and no integer strictly
/// between 1 and itself divides it.
pub open spec fn is_prime_spec(n: int) -> bool {
    n >= 2 && forall|d: int| 2 <= d < n ==> #[trigger] (n % d) != 0
}

/// Numbers below 2 are never prime.
pub proof fn lemma_below_two_not_prime(n: int)
    requires
        n <= 1,
    ensures
        !is_prime_spec(n),
{
}

/// 2 and 3 are prime.
pub proof fn lemma_two_three_prime()
    ensures
        is_prime_spec(2),
        is_prime_spec(3),
{
    assert(3int % 2 == 1);
}

/// An even number above 2 is not prime: 2 divides it.
pub proof fn lemma_even_not_prime(n: int)
    requires
        n > 2,
        n % 2 == 0,
    ensures
        !is_prime_spec(n),
{
    assert(2 <= 2 < n && n % 2 == 0);
}

/// Divisibility is transitive: if p divides d and d divides n, then p
/// divides n.
proof fn lemma_divides_transitive(p: int, d: int, n: int)
    requires
        1 <= p,
        1 <= d,
        d % p == 0,
        n % d == 0,
    ensures
        n % p == 0,
{
    lemma_fundamental_div_mod(n, d);
    lemma_fundamental_div_mod(d, p);
    let q = n / d;
    let r = d / p;
    assert(n == (p * r) * q);
    lemma_mul_is_associative(p, r, q);
    lemma_mul_is_commutative(p, r * q);
    assert(n == (r * q) * p);
    lemma_mod_multiples_basic(r * q, p);
}

/// A divisor of n that is positive cannot exceed n.
proof fn lemma_divisor_at_most(n: int, d: int)
    requires
        1 <= n,
        1 <= d,
        n % d == 0,
    ensures
        d <= n,
{
    if d > n {
        lemma_small_mod(n as nat, d as nat);
    }
}

/// A composite n with some proper divisor also has a divisor whose
/// square does not exceed n: the smaller of the divisor and its
/// cofactor.
proof fn lemma_small_divisor(n: int, d: int) -> (e: int)
    requires
        2 <= d < n,
        n % d == 0,
    ensures
        2 <= e,
        e * e <= n,
        n % e == 0,
{
    lemma_fundamental_div_mod(n, d);
    let q = n / d;
    assert(n == d * q);
    assert(2 <= q) by (nonlinear_arith)
        requires
            n == d * q,
            2 <= d,
            d < n;
    lemma_mul_is_commutative(d, q);
    lemma_mod_multiples_basic(d, q);
    assert(n % q == 0);
    if d * d <= n {
        d
    } else {
        assert(q * q <= n) by (nonlinear_arith)
            requires
                n == d * q,
                d * d > n,
                2 <= d,
                2 <= q;
        q
    }
}

/// Decides primality by trial division: after ruling out multiples of
/// 2 and 3, only divisors of the form 6k - 1 or 6k + 1 need testing,
/// and only while their square is at most n.
pub fn is_prime(n: u32) -> (r: bool)
    ensures
        r == is_prime_spec(n as int),
{
    if n <= 1 {
        return false;
    }
    if n <= 3 {
        return true;
    }
    if n % 2 == 0 || n % 3 == 0 {
        proof {
            let ni = n as int;
            if ni % 2 == 0 {
                assert(2 <= 2 < ni && ni % 2 == 0);
            } else {
                assert(2 <= 3 < ni && ni % 3 == 0);
            }
        }
        return false;
    }
    let m: u64 = n as u64;
    let mut k: u64 = 1;
    proof {
        let ni = n as int;
        assert((6 * (k as int) - 1) * (6 * (k as int) - 1) <= 0xffff_ffff_ffff) by (nonlinear_arith)
            requires
                k == 1u64;
        assert forall|d: int| 2 <= d < 5 implies #[trigger] (ni % d) != 0 by {
            if d == 4 && ni % 4 == 0 {
                lemma_divides_transitive(2, 4, ni);
            }
        }
    }
    while (6 * k - 1) * (6 * k - 1) <= m
        invariant
            m == n as u64,
            3 < n,
            (n as int) % 2 != 0,
            (n as int) % 3 != 0,
            1 <= k <= 10923,
            (6 * (k as int) - 1) * (6 * (k as int) - 1) <= 0xffff_ffff_ffff,
            forall|d: int| 2 <= d < 6 * (k as int) - 1 ==> #[trigger] ((n as int) % d) != 0,
        decreases 10924 - k as int,
    {
        let q = 6 * k - 1;
        let p = 6 * k + 1;
        let ghost ni = n as int;
        let ghost qi = q as int;
        let ghost pi = p as int;
        if m % q == 0 {
            proof {
                assert(qi < ni) by (nonlinear_arith)
                    requires
                        2 <= qi,
                        qi * qi <= ni;
                assert(2 <= qi < ni && ni % qi == 0);
            }
            return false;
        }
        if m % p == 0 {
            proof {
                lemma_divisor_at_most(ni, pi);
                assert(pi != ni) by (nonlinear_arith)
                    requires
                        5 <= ni,
                        pi == qi + 2,
                        qi * qi <= ni;
                assert(2 <= pi < ni && ni % pi == 0);
            }
            return false;
        }
        proof {
            let ki = k as int;
            assert forall|d: int| 2 <= d < 6 * (ki + 1) - 1 implies #[trigger] (ni % d) != 0 by {
                if d < 6 * ki - 1 {
                } else if d == 6 * ki - 1 {
                    assert(ni % d != 0);
                } else if d == 6 * ki + 1 {
                    assert(ni % d != 0);
                } else if d % 2 == 0 {
                    if ni % d == 0 {
                        lemma_divides_transitive(2, d, ni);
                    }
                } else {
                    assert(d == 6 * ki + 3);
                    if ni % d == 0 {
                        lemma_divides_transitive(3, d, ni);
                    }
                }
            }
            assert(k <= 10922) by (nonlinear_arith)
                requires
                    1 <= k,
                    (6 * (k as int) - 1) * (6 * (k as int) - 1) <= 0xffff_ffff;
            assert((6 * ((k as int) + 1) - 1) * (6 * ((k as int) + 1) - 1) <= 0xffff_ffff_ffff)
                by (nonlinear_arith)
                requires
                    1 <= k as int <= 10922;
        }
        k = k + 1;
    }
    proof {
        let ni = n as int;
        let ki = k as int;
        assert forall|d: int| 2 <= d < ni implies #[trigger] (ni % d) != 0 by {
            if ni % d == 0 {
                let e = lemma_small_divisor(ni, d);
                assert(e < 6 * ki - 1) by (nonlinear_arith)
                    requires
                        2 <= e,
                        e * e <= ni,
                        ni < (6 * ki - 1) * (6 * ki - 1),
                        1 <= ki;
                assert(ni % e != 0);
                assert(false);
            }
        }
    }
    true
}

} // verus!
