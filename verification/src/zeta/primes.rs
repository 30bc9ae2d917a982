//! Primes: the definition the sieve is proved against, counts and sums of primes over ranges,
//! and the simple sieve that lists the small primes.

use vstd::arithmetic::div_mod::*;
use vstd::prelude::*;

verus! {

/// `n` is prime: at least 2 and without divisors between 2 and `n − 1`.
pub open spec fn is_prime(n: int) -> bool {
    &&& n >= 2
    &&& forall|d: int| 2 <= d < n ==> #[trigger] (n % d) != 0
}

/// Number of primes `n` with `lo ≤ n ≤ hi`.
pub open spec fn prime_count_between(lo: int, hi: int) -> nat
    decreases hi - lo + 1,
{
    if hi < lo {
        0
    } else {
        prime_count_between(lo, hi - 1) + if is_prime(hi) {
            1nat
        } else {
            0nat
        }
    }
}

/// Sum of the primes `n` with `lo ≤ n ≤ hi`.
pub open spec fn prime_sum_between(lo: int, hi: int) -> int
    decreases hi - lo + 1,
{
    if hi < lo {
        0
    } else {
        prime_sum_between(lo, hi - 1) + if is_prime(hi) {
            hi
        } else {
            0
        }
    }
}

/// Counts and sums over adjacent ranges add up: `[lo, mid − 1]` and `[mid, hi]` make `[lo, hi]`.
pub proof fn lemma_between_split(lo: int, mid: int, hi: int)
    requires
        lo <= mid <= hi + 1,
    ensures
        prime_count_between(lo, hi) == prime_count_between(lo, mid - 1) + prime_count_between(
            mid,
            hi,
        ),
        prime_sum_between(lo, hi) == prime_sum_between(lo, mid - 1) + prime_sum_between(mid, hi),
    decreases hi - lo + 1,
{
    if hi >= mid {
        lemma_between_split(lo, mid, hi - 1);
    }
}

/// Counts and sums are not negative.
pub proof fn lemma_between_nonneg(lo: int, hi: int)
    requires
        lo >= 0,
    ensures
        prime_sum_between(lo, hi) >= 0,
        prime_count_between(lo, hi) <= if hi >= lo {
            hi - lo + 1
        } else {
            0
        },
    decreases hi - lo + 1,
{
    if hi >= lo {
        lemma_between_nonneg(lo, hi - 1);
    }
}

/// Least divisor of `n` that is at least `d`.
pub open spec fn least_factor_from(n: int, d: int) -> int
    decreases n - d,
{
    if d >= n || n % d == 0 {
        if d >= n {
            n
        } else {
            d
        }
    } else {
        least_factor_from(n, d + 1)
    }
}

proof fn lemma_least_factor_from(n: int, d: int)
    requires
        2 <= d <= n,
        forall|e: int| 2 <= e < d ==> #[trigger] (n % e) != 0,
    ensures
        ({
            let p = least_factor_from(n, d);
            &&& d <= p <= n
            &&& n % p == 0
            &&& forall|e: int| 2 <= e < p ==> #[trigger] (n % e) != 0
        }),
    decreases n - d,
{
    if d >= n {
        lemma_mod_self_0(n);
    } else if n % d != 0 {
        lemma_least_factor_from(n, d + 1);
    }
}

/// The least factor `p ≥ 2` of `n ≥ 2` is prime, divides `n`, and `p² ≤ n` unless `n` is prime.
pub proof fn lemma_least_factor(n: int) -> (p: int)
    requires
        n >= 2,
    ensures
        is_prime(p),
        2 <= p <= n,
        n % p == 0,
        forall|e: int| 2 <= e < p ==> #[trigger] (n % e) != 0,
        !is_prime(n) ==> p * p <= n,
{
    lemma_least_factor_from(n, 2);
    let p = least_factor_from(n, 2);
    assert forall|e: int| 2 <= e < p implies #[trigger] (p % e) != 0 by {
        if p % e == 0 {
            lemma_mod_factor_transfers(n, p, e);
        }
    }
    if !is_prime(n) {
        let w = choose|w: int| 2 <= w < n && #[trigger] (n % w) == 0;
        assert(p <= w);
        assert(p < n);
        let q = n / p;
        lemma_fundamental_div_mod(n, p);
        assert(n == p * q);
        assert(q >= 2) by {
            if q <= 1 {
                assert(p * q <= p) by (nonlinear_arith)
                    requires
                        q <= 1,
                        p >= 2,
                ;
            }
        }
        assert(n % q == 0) by {
            lemma_mod_multiples_basic(p, q);
            assert(p * q == q * p) by (nonlinear_arith);
        }
        assert(q >= p) by {
            if q < p {
                assert(n % q != 0);
            }
        }
        assert(p * p <= p * q) by (nonlinear_arith)
            requires
                q >= p,
                p >= 0,
        ;
    }
    p
}

/// If `p` divides `n` and `e` divides `p`, then `e` divides `n`.
pub proof fn lemma_mod_factor_transfers(n: int, p: int, e: int)
    requires
        p > 0,
        e > 0,
        n % p == 0,
        p % e == 0,
    ensures
        n % e == 0,
{
    lemma_fundamental_div_mod(n, p);
    lemma_fundamental_div_mod(p, e);
    let a = n / p;
    let b = p / e;
    assert(n == e * (b * a)) by (nonlinear_arith)
        requires
            n == p * a,
            p == e * b,
    ;
    lemma_mod_multiples_basic(b * a, e);
    assert(e * (b * a) == (b * a) * e) by (nonlinear_arith);
}

/// A number that some prime `p < n` divides is not prime.
pub proof fn lemma_not_prime_with_factor(n: int, p: int)
    requires
        2 <= p < n,
        n % p == 0,
    ensures
        !is_prime(n),
{
}

/// Primes up to `limit` (inclusive), in increasing order, with a simple sieve.
pub fn small_primes(limit: u64) -> (r: Vec<u64>)
    requires
        limit < 0x1_0000_0000,
        limit < usize::MAX,
    ensures
        forall|i: int| 0 <= i < r@.len() ==> is_prime(#[trigger] r@[i] as int) && r@[i] <= limit,
        forall|i: int, j: int| 0 <= i < j < r@.len() ==> r@[i] < r@[j],
        forall|p: int| 0 <= p <= limit && is_prime(p) ==> r@.contains(p as u64),
{
    if limit < 2 {
        return Vec::new();
    }
    let n = limit as usize;
    let mut composite: Vec<bool> = vec![false; n + 1];
    let mut primes: Vec<u64> = Vec::new();
    let mut i: usize = 2;
    proof {
        assert forall|k: int| 0 <= k < composite@.len() implies !#[trigger] composite@[k] by {
            assert(cloned::<bool>(false, composite@[k]));
        }
    }
    while i <= n
        invariant
            n == limit,
            limit < 0x1_0000_0000,
            limit < usize::MAX,
            composite@.len() == n + 1,
            2 <= i <= n + 1,
            forall|k: int|
                2 <= k <= n ==> (#[trigger] composite@[k] <==> exists|p: int|
                    2 <= p < i && is_prime(p) && #[trigger] (k % p) == 0 && k >= p * p),
            forall|j: int| 0 <= j < primes@.len() ==> is_prime(#[trigger] primes@[j] as int)
                && primes@[j] < i,
            forall|a: int, b: int| 0 <= a < b < primes@.len() ==> primes@[a] < primes@[b],
            forall|p: int| 2 <= p < i && is_prime(p) ==> primes@.contains(p as u64),
        decreases n + 1 - i,
    {
        let is_p = !composite[i];
        proof {
            let k = i as int;
            if is_p {
                if !is_prime(k) {
                    let p = lemma_least_factor(k);
                    assert(p < k) by {
                        if p == k {
                            assert(is_prime(k));
                        }
                    }
                    assert(composite@[k]);
                }
            } else {
                let p = choose|p: int|
                    2 <= p < i && is_prime(p) && #[trigger] (k % p) == 0 && k >= p * p;
                lemma_not_prime_with_factor(k, p);
            }
        }
        if is_p {
            let ghost before = primes@;
            primes.push(i as u64);
            proof {
                assert forall|p: int| 2 <= p < i + 1 && is_prime(p) implies primes@.contains(
                    p as u64,
                ) by {
                    if p < i {
                        let w = choose|w: int| 0 <= w < before.len() && before[w] == p as u64;
                        assert(primes@[w] == p as u64);
                    } else {
                        assert(primes@[before.len() as int] == p as u64);
                    }
                }
            }
            let step = i as u64;
            proof {
                assert(step * step < 0x1_0000_0000_0000_0000) by (nonlinear_arith)
                    requires
                        step < 0x1_0000_0000,
                ;
                lemma_mod_multiples_basic(step as int, step as int);
            }
            let mut j: u64 = step * step;
            while j <= limit
                invariant
                    n == limit,
                    limit < 0x1_0000_0000,
                    composite@.len() == n + 1,
                    2 <= step <= limit,
                    step == i,
                    is_prime(step as int),
                    j % step == 0,
                    j >= step * step,
                    j <= limit + step || j == step * step,
                    forall|k: int|
                        2 <= k <= n ==> (#[trigger] composite@[k] <==> (exists|p: int|
                            2 <= p < i && is_prime(p) && #[trigger] (k % p) == 0 && k >= p * p)
                            || (k % (step as int) == 0 && k >= step * step && k < j)),
                decreases limit + step - j,
            {
                composite.set(j as usize, true);
                proof {
                    assert forall|k: int| 2 <= k <= n implies (#[trigger] composite@[k] <==> (
                    exists|p: int|
                        2 <= p < i && is_prime(p) && #[trigger] (k % p) == 0 && k >= p * p) || (k
                        % (step as int) == 0 && k >= step * step && k < j + step)) by {
                        if k % (step as int) == 0 && k >= j && k < j + step {
                            lemma_multiples_gap(k, j as int, step as int);
                        }
                    }
                    lemma_mod_add_multiples_vanish(j as int, step as int);
                }
                j = j + step;
            }
            proof {
                assert forall|k: int| 2 <= k <= n implies (#[trigger] composite@[k] <==> exists|p: int|
                    2 <= p < i + 1 && is_prime(p) && #[trigger] (k % p) == 0 && k >= p * p) by {
                    if k % (step as int) == 0 && k >= step * step {
                        assert(2 <= step < i + 1 && is_prime(step as int));
                    }
                    if exists|p: int| 2 <= p < i + 1 && is_prime(p) && #[trigger] (k % p) == 0 && k
                        >= p * p {
                        let p = choose|p: int|
                            2 <= p < i + 1 && is_prime(p) && #[trigger] (k % p) == 0 && k >= p
                                * p;
                        if p < i {
                            assert(exists|p: int|
                                2 <= p < i && is_prime(p) && #[trigger] (k % p) == 0 && k >= p
                                    * p);
                        }
                    }
                }
            }
        } else {
            proof {
                assert forall|k: int| 2 <= k <= n implies (#[trigger] composite@[k] <==> exists|p: int|
                    2 <= p < i + 1 && is_prime(p) && #[trigger] (k % p) == 0 && k >= p * p) by {
                    if exists|p: int| 2 <= p < i + 1 && is_prime(p) && #[trigger] (k % p) == 0 && k
                        >= p * p {
                        let p = choose|p: int|
                            2 <= p < i + 1 && is_prime(p) && #[trigger] (k % p) == 0 && k >= p
                                * p;
                        if p == i {
                            assert(!is_prime(i as int));
                        }
                        assert(exists|p: int|
                            2 <= p < i && is_prime(p) && #[trigger] (k % p) == 0 && k >= p * p);
                    }
                }
            }
        }
        i += 1;
    }
    primes
}

/// Between two consecutive multiples of `step` there is no other multiple.
proof fn lemma_multiples_gap(k: int, j: int, step: int)
    requires
        step > 0,
        j % step == 0,
        k % step == 0,
        j <= k < j + step,
    ensures
        k == j,
{
    lemma_fundamental_div_mod(k, step);
    lemma_fundamental_div_mod(j, step);
    let a = k / step;
    let b = j / step;
    assert(a == b) by (nonlinear_arith)
        requires
            k == step * a,
            j == step * b,
            j <= k < j + step,
            step > 0,
    ;
}

} // verus!
