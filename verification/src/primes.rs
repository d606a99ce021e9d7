use vstd::arithmetic::div_mod::{
    lemma_fundamental_div_mod, lemma_mod_bound, lemma_mod_multiples_basic, lemma_mul_mod_noop_left,
    lemma_small_mod,
};
use vstd::arithmetic::power::pow;
use vstd::prelude::*;

verus! {

/// `p` is a prime number.
pub open spec fn is_prime(p: int) -> bool {
    p >= 2 && forall|d: int| 2 <= d < p ==> #[trigger] (p % d) != 0
}

/// The product of `p` to the power `e` over the pairs `(p, e)`.
pub open spec fn factorization_product(factors: Seq<(usize, usize)>) -> int
    decreases factors.len(),
{
    if factors.len() == 0 {
        1
    } else {
        factorization_product(factors.drop_last()) * pow(factors.last().0 as int, factors.last().1 as nat)
    }
}

/// `factors` is the factorization of `n` into powers of primes, with the
/// primes in increasing order.
pub open spec fn is_prime_factorization(factors: Seq<(usize, usize)>, n: int) -> bool {
    &&& factorization_product(factors) == n
    &&& forall|k: int| 0 <= k < factors.len() ==> is_prime(#[trigger] factors[k].0 as int) && factors[k].1 >= 1
    &&& forall|j: int, k: int| 0 <= j < k < factors.len() ==> #[trigger] factors[j].0 < #[trigger] factors[k].0
}

/// The prime is 1, 5 or 7 modulo 8.
pub open spec fn allowed_prime(p: int) -> bool {
    p % 8 == 1 || p % 8 == 5 || p % 8 == 7
}

/// Every prime that divides `n` is 1, 5 or 7 modulo 8.
pub open spec fn prime_divisors_allowed(n: int) -> bool {
    forall|p: int| #[trigger] is_prime(p) && n % p == 0 ==> allowed_prime(p)
}

/// A prime that divides `a * b`, where `0 < a < p`, divides `b`.
proof fn lemma_euclid_small(p: int, a: int, b: int)
    requires
        is_prime(p),
        0 < a < p,
        (a * b) % p == 0,
    ensures
        b % p == 0,
    decreases a,
{
    if a > 1 {
        let q = p / a;
        let r = p % a;
        lemma_fundamental_div_mod(p, a);
        lemma_mod_bound(p, a);
        assert(p % a != 0);
        let m = (a * b) / p;
        lemma_fundamental_div_mod(a * b, p);
        assert(r * b == (b - q * m) * p) by (nonlinear_arith)
            requires
                p == a * q + r,
                a * b == p * m,
        ;
        lemma_mod_multiples_basic(b - q * m, p);
        lemma_euclid_small(p, r, b);
    } else {
        assert(a * b == b) by (nonlinear_arith)
            requires
                a == 1,
        ;
    }
}

/// Euclid's lemma: a prime that divides a product divides one of its factors.
pub proof fn lemma_euclid(p: int, a: int, b: int)
    requires
        is_prime(p),
        (a * b) % p == 0,
    ensures
        a % p == 0 || b % p == 0,
{
    lemma_mod_bound(a, p);
    if a % p != 0 {
        lemma_mul_mod_noop_left(a, b, p);
        lemma_euclid_small(p, a % p, b);
    }
}

/// A prime that divides a power of a prime is that prime.
proof fn lemma_prime_divides_prime_power(p: int, q: int, e: nat)
    requires
        is_prime(p),
        is_prime(q),
        pow(q, e) % p == 0,
    ensures
        p == q,
    decreases e,
{
    reveal(pow);
    if e == 0 {
        lemma_small_mod(1, p as nat);
    } else {
        let rest = pow(q, (e - 1) as nat);
        assert(pow(q, e) == q * rest);
        lemma_euclid(p, q, rest);
        if q % p == 0 {
            if p < q {
                assert(q % p != 0);
            } else if p > q {
                lemma_small_mod(q as nat, p as nat);
            }
        } else {
            lemma_prime_divides_prime_power(p, q, (e - 1) as nat);
        }
    }
}

/// A prime that divides a product of prime powers is one of their primes.
proof fn lemma_prime_in_factorization(factors: Seq<(usize, usize)>, p: int)
    requires
        forall|k: int| 0 <= k < factors.len() ==> is_prime(#[trigger] factors[k].0 as int),
        is_prime(p),
        factorization_product(factors) % p == 0,
    ensures
        exists|k: int| 0 <= k < factors.len() && #[trigger] factors[k].0 == p,
    decreases factors.len(),
{
    if factors.len() == 0 {
        lemma_small_mod(1, p as nat);
    } else {
        let rest = factors.drop_last();
        let last = factors.last();
        assert(is_prime(factors[factors.len() - 1].0 as int));
        lemma_euclid(p, factorization_product(rest), pow(last.0 as int, last.1 as nat));
        if factorization_product(rest) % p == 0 {
            assert forall|k: int| 0 <= k < rest.len() implies is_prime(#[trigger] rest[k].0 as int) by {
                assert(rest[k] == factors[k]);
                assert(is_prime(factors[k].0 as int));
            }
            lemma_prime_in_factorization(rest, p);
            let k = choose|k: int| 0 <= k < rest.len() && #[trigger] rest[k].0 == p;
            assert(factors[k] == rest[k]);
        } else {
            lemma_prime_divides_prime_power(p, last.0 as int, last.1 as nat);
            assert(factors[factors.len() - 1].0 == p);
        }
    }
}

/// Each prime of a product of prime powers, each power at least the first,
/// divides the product.
proof fn lemma_factor_divides(factors: Seq<(usize, usize)>, k: int)
    requires
        forall|j: int| 0 <= j < factors.len() ==> (#[trigger] factors[j]).0 >= 2 && factors[j].1 >= 1,
        0 <= k < factors.len(),
    ensures
        factorization_product(factors) % (factors[k].0 as int) == 0,
    decreases factors.len(),
{
    reveal(pow);
    let d = factors[k].0 as int;
    let rest = factors.drop_last();
    let last = factors.last();
    let before = factorization_product(rest);
    let power = pow(last.0 as int, last.1 as nat);
    assert(factorization_product(factors) == before * power);
    assert(factors[k].0 >= 2);
    if k == factors.len() - 1 {
        let lower = pow(d, (last.1 - 1) as nat);
        assert(power == d * lower);
        assert(before * power == (before * lower) * d) by (nonlinear_arith)
            requires
                power == d * lower,
        ;
        lemma_mod_multiples_basic(before * lower, d);
    } else {
        assert forall|j: int| 0 <= j < rest.len() implies (#[trigger] rest[j]).0 >= 2 && rest[j].1 >= 1 by {
            assert(rest[j] == factors[j]);
        }
        assert(rest[k] == factors[k]);
        lemma_factor_divides(rest, k);
        let m = before / d;
        lemma_fundamental_div_mod(before, d);
        assert(before * power == (m * power) * d) by (nonlinear_arith)
            requires
                before == d * m,
        ;
        lemma_mod_multiples_basic(m * power, d);
    }
}

/// The primes of a prime factorization of `n` are the prime divisors of
/// `n`, so all of them are 1, 5 or 7 modulo 8 exactly when every prime
/// divisor of `n` is.
pub proof fn lemma_factorization_decides_prime_divisors(factors: Seq<(usize, usize)>, n: int)
    requires
        is_prime_factorization(factors, n),
    ensures
        (forall|k: int| 0 <= k < factors.len() ==> allowed_prime(#[trigger] factors[k].0 as int))
            == prime_divisors_allowed(n),
{
    assert forall|j: int| 0 <= j < factors.len() implies is_prime(#[trigger] factors[j].0 as int) by {
        assert(is_prime(factors[j].0 as int));
    }
    if forall|k: int| 0 <= k < factors.len() ==> allowed_prime(#[trigger] factors[k].0 as int) {
        assert forall|p: int| #[trigger] is_prime(p) && n % p == 0 implies allowed_prime(p) by {
            lemma_prime_in_factorization(factors, p);
            let k = choose|k: int| 0 <= k < factors.len() && #[trigger] factors[k].0 == p;
            assert(allowed_prime(factors[k].0 as int));
        }
    }
    if prime_divisors_allowed(n) {
        assert forall|j: int| 0 <= j < factors.len() implies (#[trigger] factors[j]).0 >= 2 && factors[j].1
            >= 1 by {
            assert(is_prime(factors[j].0 as int));
        }
        assert forall|k: int| 0 <= k < factors.len() implies allowed_prime(#[trigger] factors[k].0 as int) by {
            lemma_factor_divides(factors, k);
            assert(is_prime(factors[k].0 as int));
        }
    }
}

} // verus!
