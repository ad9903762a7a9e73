//! The sieve of Eratosthenes: all primes up to a limit, in increasing order.

use vstd::arithmetic::div_mod::{lemma_fundamental_div_mod, lemma_mod_multiples_basic};
use vstd::prelude::*;

verus! {

/// `d` divides `k`.
pub open spec fn divides(d: int, k: int) -> bool {
    k % d == 0
}

/// `n` is at least 2 and no number from 2 to `n - 1` divides it.
pub open spec fn is_prime(n: int) -> bool {
    n >= 2 && forall|d: int| 2 <= d < n ==> !#[trigger] divides(d, n)
}

/// `k` has survived the sieve so far: it is at least 2 and no number from 2
/// to `bound - 1` whose square is at most `k` divides it.
pub open spec fn survives(k: int, bound: int) -> bool {
    k >= 2 && forall|d: int| 2 <= d < bound && d * d <= k ==> !#[trigger] divides(d, k)
}

/// What a positive number divides is the product of it and the quotient.
proof fn lemma_divides_iff_multiple(d: int, k: int)
    requires
        d > 0,
    ensures
        divides(d, k) <==> k == d * (k / d),
{
    lemma_fundamental_div_mod(k, d);
    if k == d * (k / d) {
        lemma_multiple_divides(d, k / d);
    }
}

/// A positive number divides its multiples.
proof fn lemma_multiple_divides(d: int, q: int)
    requires
        d > 0,
    ensures
        divides(d, d * q),
{
    lemma_mod_multiples_basic(q, d);
    assert(d * q == q * d) by (nonlinear_arith);
}

/// Divisibility is transitive.
proof fn lemma_divides_trans(a: int, b: int, c: int)
    requires
        a > 0,
        b > 0,
        divides(a, b),
        divides(b, c),
    ensures
        divides(a, c),
{
    lemma_divides_iff_multiple(a, b);
    lemma_divides_iff_multiple(b, c);
    let x = b / a;
    let y = c / b;
    assert(c == a * (x * y)) by (nonlinear_arith)
        requires
            c == b * y,
            b == a * x,
    ;
    lemma_multiple_divides(a, x * y);
}

/// A number without a divisor up to its square root is prime.
proof fn lemma_survivor_is_prime(n: int)
    requires
        survives(n, n),
    ensures
        is_prime(n),
{
    assert forall|d: int| 2 <= d < n implies !#[trigger] divides(d, n) by {
        if divides(d, n) && d * d > n {
            let e = n / d;
            lemma_divides_iff_multiple(d, n);
            assert(n == d * e);
            assert(2 <= e < d && e * e <= n && n == e * d) by (nonlinear_arith)
                requires
                    n == d * e,
                    2 <= d < n,
                    d * d > n,
            ;
            lemma_multiple_divides(e, d);
            assert(divides(e, n));
        }
    }
}

/// Moving the bound past a prime strikes out its multiples from its square on.
proof fn lemma_survives_next(k: int, num: int)
    requires
        num >= 2,
    ensures
        survives(k, num + 1) <==> survives(k, num) && !(num * num <= k && divides(num, k)),
{
}

/// Moving the bound past a number that did not survive strikes out nothing.
proof fn lemma_survives_skip(k: int, num: int)
    requires
        num >= 2,
        !survives(num, num),
    ensures
        survives(k, num + 1) <==> survives(k, num),
{
    lemma_survives_next(k, num);
    if survives(k, num) && num * num <= k && divides(num, k) {
        let d = choose|d: int| 2 <= d < num && d * d <= num && #[trigger] divides(d, num);
        lemma_divides_trans(d, num, k);
        assert(num <= num * num) by (nonlinear_arith)
            requires
                num >= 2,
        ;
        assert(false);
    }
}

/// The next multiple of `num` after `multiple` is `multiple + num`.
proof fn lemma_next_multiple(num: int, multiple: int, k: int)
    requires
        num > 0,
        divides(num, multiple),
        divides(num, k),
        k > multiple,
    ensures
        k >= multiple + num,
{
    lemma_divides_iff_multiple(num, multiple);
    lemma_divides_iff_multiple(num, k);
    let a = multiple / num;
    let b = k / num;
    assert(b >= a + 1 ==> num * b >= num * a + num) by (nonlinear_arith)
        requires
            num > 0,
    ;
    assert(b <= a ==> num * b <= num * a) by (nonlinear_arith)
        requires
            num > 0,
    ;
}

/// All primes up to `upper_limit`, each once, in increasing order.
pub fn sieve_of_eratosthenes(upper_limit: usize) -> (primes: Vec<usize>)
    requires
        1 <= upper_limit < usize::MAX,
    ensures
        forall|i: int| 0 <= i < primes.len() ==> is_prime(#[trigger] primes[i] as int) && primes[i] <= upper_limit,
        forall|i: int, j: int| 0 <= i < j < primes.len() ==> primes[i] < primes[j],
        forall|p: int| 2 <= p <= upper_limit && #[trigger] is_prime(p) ==> primes@.contains(p as usize),
{
    let mut is_prime: Vec<bool> = vec![true; upper_limit + 1];
    is_prime[0] = false;
    is_prime[1] = false;
    let mut primes: Vec<usize> = Vec::new();
    let mut num: usize = 2;
    while num <= upper_limit
        invariant
            1 <= upper_limit < usize::MAX,
            2 <= num <= upper_limit + 1,
            is_prime.len() == upper_limit + 1,
            forall|k: int| 0 <= k <= upper_limit ==> #[trigger] is_prime[k] == survives(k, num as int),
            forall|i: int| 0 <= i < primes.len() ==> self::is_prime(#[trigger] primes[i] as int) && primes[i] < num,
            forall|i: int, j: int| 0 <= i < j < primes.len() ==> primes[i] < primes[j],
            forall|p: int| 2 <= p < num && #[trigger] self::is_prime(p) ==> primes@.contains(p as usize),
        decreases upper_limit + 1 - num,
    {
        let ghost found = primes@;
        if is_prime[num] {
            proof {
                lemma_survivor_is_prime(num as int);
            }
            primes.push(num);
            let ghost flags = is_prime@;
            if num <= upper_limit / num {
                assert(num * num <= upper_limit) by (nonlinear_arith)
                    requires
                        num <= upper_limit / num,
                        num > 0,
                        upper_limit >= 0,
                ;
                let mut multiple: usize = num * num;
                is_prime[multiple] = false;
                proof {
                    lemma_multiple_divides(num as int, num as int);
                }
                while upper_limit - multiple >= num
                    invariant
                        num >= 2,
                        num * num <= multiple <= upper_limit,
                        divides(num as int, multiple as int),
                        is_prime.len() == upper_limit + 1,
                        flags.len() == upper_limit + 1,
                        forall|k: int|
                            0 <= k <= upper_limit ==> #[trigger] is_prime[k] == (flags[k] && !(num * num <= k
                                <= multiple && divides(num as int, k))),
                    decreases upper_limit - multiple,
                {
                    let ghost reached = multiple;
                    multiple += num;
                    is_prime[multiple] = false;
                    proof {
                        lemma_divides_iff_multiple(num as int, reached as int);
                        assert(multiple == num * (reached as int / num as int + 1)) by (nonlinear_arith)
                            requires
                                multiple == reached + num,
                                reached == num * (reached as int / num as int),
                        ;
                        lemma_multiple_divides(num as int, reached as int / num as int + 1);
                        assert forall|k: int| reached < k < multiple implies !divides(num as int, k) by {
                            if divides(num as int, k) {
                                lemma_next_multiple(num as int, reached as int, k);
                            }
                        }
                    }
                }
                proof {
                    assert forall|k: int| 0 <= k <= upper_limit implies #[trigger] is_prime[k] == survives(
                        k,
                        num + 1,
                    ) by {
                        lemma_survives_next(k, num as int);
                        if divides(num as int, k) && k > multiple {
                            lemma_next_multiple(num as int, multiple as int, k);
                        }
                    }
                }
            } else {
                proof {
                    lemma_fundamental_div_mod(upper_limit as int, num as int);
                    assert(num * num > upper_limit) by (nonlinear_arith)
                        requires
                            num > upper_limit / num,
                            num > 0,
                            upper_limit == num * (upper_limit / num) + upper_limit % num,
                            0 <= upper_limit % num < num,
                    ;
                    assert forall|k: int| 0 <= k <= upper_limit implies #[trigger] is_prime[k] == survives(
                        k,
                        num + 1,
                    ) by {
                        lemma_survives_next(k, num as int);
                    }
                }
            }
            proof {
                assert(primes@ == found.push(num));
                assert forall|p: int| 2 <= p < num + 1 && #[trigger] self::is_prime(p) implies primes@.contains(
                    p as usize,
                ) by {
                    if p < num {
                        let i = choose|i: int| 0 <= i < found.len() && found[i] == p as usize;
                        assert(primes@[i] == p as usize);
                    } else {
                        assert(primes@[found.len() as int] == num);
                    }
                }
            }
        } else {
            proof {
                assert forall|k: int| 0 <= k <= upper_limit implies #[trigger] is_prime[k] == survives(
                    k,
                    num + 1,
                ) by {
                    lemma_survives_skip(k, num as int);
                }
            }
        }
        num += 1;
    }
    primes
}

} // verus!
