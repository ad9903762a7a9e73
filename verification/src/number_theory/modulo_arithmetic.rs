//! Arithmetic under a fixed modulus on `i64`.
//!
//! Results are remainders as `%` computes them on signed integers: zero or
//! of the sign of what was divided.

use vstd::arithmetic::div_mod::{lemma_mul_mod_noop_general, lemma_small_mod};
use vstd::arithmetic::power::{lemma_pow0, lemma_pow1, lemma_pow_adds, pow};
use vstd::prelude::*;

verus! {

/// The absolute value of `x`.
pub open spec fn abs(x: int) -> int {
    if x < 0 {
        -x
    } else {
        x
    }
}

/// The remainder of `x` by `m` that is zero or has the sign of `x`.
pub open spec fn rem(x: int, m: int) -> int {
    if x >= 0 {
        x % m
    } else {
        -((-x) % m)
    }
}

/// The product of the numbers from 1 to `n`.
pub open spec fn factorial(n: nat) -> int
    decreases n,
{
    if n == 0 {
        1
    } else {
        n * factorial((n - 1) as nat)
    }
}

/// What `bin_pow` yields: 1 for the exponent 0, and otherwise the remainder of
/// `a` raised to the absolute value of `b`.
pub open spec fn pow_rem(a: int, b: int, m: int) -> int {
    if b == 0 {
        1
    } else {
        rem(pow(a, abs(b) as nat), m)
    }
}

/// What `fact` yields: 1 below 1, and otherwise the remainder of the
/// factorial.
pub open spec fn fact_rem(n: int, m: int) -> int {
    if n <= 0 {
        1
    } else {
        rem(factorial(n as nat), m)
    }
}

/// A remainder by a positive modulus is smaller than the modulus and no
/// larger than what was divided.
pub proof fn lemma_rem_bound(x: int, m: int)
    requires
        m > 0,
    ensures
        abs(rem(x, m)) < m,
        abs(rem(x, m)) <= abs(x),
        x >= 0 ==> rem(x, m) >= 0,
        x <= 0 ==> rem(x, m) <= 0,
{
    let ax = abs(x);
    if ax < m {
        lemma_small_mod(ax as nat, m as nat);
    }
}

/// In a product, a factor may be replaced by its remainder without changing
/// the remainder of the product.
pub proof fn lemma_rem_mul_left(x: int, y: int, m: int)
    requires
        m > 0,
    ensures
        rem(rem(x, m) * y, m) == rem(x * y, m),
{
    let ax = abs(x);
    let ay = abs(y);
    let r = ax % m;
    let p = rem(x, m) * y;
    let q = x * y;
    lemma_rem_bound(x, m);
    assert(abs(rem(x, m)) == r);
    lemma_mul_mod_noop_general(ax, ay, m);
    assert((r * ay) % m == (ax * ay) % m);
    assert(abs(q) == ax * ay) by (nonlinear_arith)
        requires
            q == x * y,
            ax == abs(x),
            ay == abs(y),
    ;
    assert(abs(p) == r * ay) by (nonlinear_arith)
        requires
            p == rem(x, m) * y,
            abs(rem(x, m)) == r,
            ay == abs(y),
    ;
    assert((p > 0 ==> q > 0) && (p < 0 ==> q < 0)) by (nonlinear_arith)
        requires
            p == rem(x, m) * y,
            q == x * y,
            x >= 0 ==> rem(x, m) >= 0,
            x <= 0 ==> rem(x, m) <= 0,
    ;
    if p == 0 {
        assert(r * ay == 0);
        lemma_small_mod(0, m as nat);
        assert(abs(q) % m == 0);
    }
}

/// A product of `x` and a number of absolute value up to `bound` stays
/// within `limit` where the product of `bound` and the absolute value of
/// `x` does.
proof fn lemma_product_fits(x: int, y: int, bound: int, limit: int)
    requires
        abs(y) <= bound,
        bound * abs(x) <= limit,
    ensures
        -limit <= x * y <= limit,
{
    let ax = abs(x);
    let ay = abs(y);
    assert(ay * ax <= bound * ax) by (nonlinear_arith)
        requires
            0 <= ay <= bound,
            0 <= ax,
    ;
    assert(x * y == ay * ax || x * y == -(ay * ax)) by (nonlinear_arith)
        requires
            ax == x || ax == -x,
            ay == y || ay == -y,
    ;
}

/// `bin_pow` squares its way up: the remainder of a power is the remainder
/// of the square of the power to half the exponent, times the base where
/// the exponent is odd.
proof fn lemma_pow_rem_step(a: int, b: int, m: int)
    requires
        m > 0,
        b != 0,
    ensures
        ({
            let half = pow_rem(a, abs(b) / 2, m);
            let squared = rem(half * half, m);
            pow_rem(a, b, m) == if abs(b) % 2 == 0 {
                squared
            } else {
                rem(squared * a, m)
            }
        }),
{
    let e = abs(b);
    let h = e / 2;
    let half = pow_rem(a, h, m);
    let squared = rem(half * half, m);
    let x = pow(a, h as nat);
    lemma_pow_adds(a, h as nat, h as nat);
    assert(squared == rem(x * x, m)) by {
        if h == 0 {
            lemma_pow0(a);
        } else {
            lemma_rem_mul_left(x, rem(x, m), m);
            assert(rem(x, m) * x == x * rem(x, m)) by (nonlinear_arith);
            lemma_rem_mul_left(x, x, m);
        }
    }
    if e % 2 != 0 {
        lemma_rem_mul_left(x * x, a, m);
        lemma_pow1(a);
        lemma_pow_adds(a, (2 * h) as nat, 1);
    }
}

/// Arithmetic under the modulus that it was made with.
pub struct ModuloArithmetic {
    modulo: i64,
}

impl ModuloArithmetic {
    /// The modulus.
    pub closed spec fn modulus(&self) -> int {
        self.modulo as int
    }

    /// The modulus is positive and small enough for a product of `x` and a
    /// remainder, and of two remainders, to fit into an `i64`.
    pub open spec fn fits(&self, x: int) -> bool {
        &&& self.modulus() > 0
        &&& (self.modulus() - 1) * (self.modulus() - 1) <= i64::MAX
        &&& (self.modulus() - 1) * abs(x) <= i64::MAX
    }

    /// Arithmetic under `modulo`.
    pub fn new(modulo: i64) -> (res: Self)
        ensures
            res.modulus() == modulo,
    {
        Self { modulo }
    }

    /// Arithmetic under 1 000 000 007.
    pub fn def() -> (res: Self)
        ensures
            res.modulus() == 1_000_000_007,
    {
        Self { modulo: 1_000_000_007 }
    }

    /// The remainder of `a + b`.
    pub fn add(&self, a: i64, b: i64) -> (res: i64)
        requires
            self.modulus() != 0,
            i64::MIN <= a + b <= i64::MAX,
            !(a + b == i64::MIN && self.modulus() == -1),
        ensures
            res == rem(a + b, self.modulus()),
    {
        return (a + b) % self.modulo;
    }

    /// The remainder of `a - b + m`, where `m` is the modulus.
    pub fn sub(&self, a: i64, b: i64) -> (res: i64)
        requires
            self.modulus() != 0,
            i64::MIN <= a - b <= i64::MAX,
            i64::MIN <= a - b + self.modulus() <= i64::MAX,
            !(a - b + self.modulus() == i64::MIN && self.modulus() == -1),
        ensures
            res == rem(a - b + self.modulus(), self.modulus()),
    {
        return (a - b + self.modulo) % self.modulo;
    }

    /// The remainder of `a * b`.
    pub fn mul(&self, a: i64, b: i64) -> (res: i64)
        requires
            self.modulus() != 0,
            i64::MIN <= a * b <= i64::MAX,
            !(a * b == i64::MIN && self.modulus() == -1),
        ensures
            res == rem(a * b, self.modulus()),
    {
        return (a * b) % self.modulo;
    }

    /// The remainder of `a` times `b` raised to the modulus less two: for a
    /// prime modulus, `a` times the inverse of `b`.
    pub fn div(&self, a: i64, b: i64) -> (res: i64)
        requires
            self.fits(a as int),
            self.fits(b as int),
        ensures
            res == rem(a * pow_rem(b as int, self.modulus() - 2, self.modulus()), self.modulus()),
    {
        let inverse = self.bin_pow(b, self.modulo - 2);
        proof {
            if inverse != 1 {
                lemma_product_fits(a as int, inverse as int, self.modulus() - 1, i64::MAX as int);
            }
        }
        return self.mul(a, inverse);
    }

    /// `a` raised to the absolute value of `b`, by repeated squaring: 1 for
    /// `b == 0`, and otherwise the remainder of the power.
    pub fn bin_pow(&self, a: i64, b: i64) -> (res: i64)
        requires
            self.fits(a as int),
        ensures
            res == pow_rem(a as int, b as int, self.modulus()),
            res == 1 || abs(res as int) <= self.modulus() - 1,
        decreases abs(b as int),
    {
        if b == 0 {
            return 1;
        }
        let halved = b / 2;
        assert(abs(halved as int) == abs(b as int) / 2);
        let half = self.bin_pow(a, halved);
        proof {
            let m = self.modulus();
            lemma_pow_rem_step(a as int, b as int, m);
            if half != 1 {
                assert((m - 1) * abs(half as int) <= (m - 1) * (m - 1)) by (nonlinear_arith)
                    requires
                        0 <= abs(half as int) <= m - 1,
                ;
                lemma_product_fits(half as int, half as int, m - 1, i64::MAX as int);
            }
            lemma_rem_bound(half * half, m);
            lemma_product_fits(a as int, rem(half * half, m), m - 1, i64::MAX as int);
            assert(rem(half * half, m) * a == a * rem(half * half, m)) by (nonlinear_arith);
            lemma_rem_bound(rem(half * half, m) * a, m);
        }
        return if b % 2 == 0 {
            self.mul(half, half)
        } else {
            self.mul(self.mul(half, half), a)
        };
    }

    /// The factorial of `n`: 1 for `n < 1`, and otherwise the remainder of
    /// the product of the numbers from 1 to `n`.
    pub fn fact(&self, n: i64) -> (res: i64)
        requires
            self.modulus() > 0,
            n >= 1 ==> self.modulus() * n <= i64::MAX,
        ensures
            res == fact_rem(n as int, self.modulus()),
    {
        let mut ans: i64 = 1;
        let mut i: i64 = 0;
        while i < n
            invariant
                0 <= i,
                i <= n || i == 0,
                self.modulus() > 0,
                n >= 1 ==> self.modulus() * n <= i64::MAX,
                ans == fact_rem(i as int, self.modulus()),
                0 <= ans <= 1 || 0 <= ans < self.modulus(),
            decreases n - i,
        {
            i += 1;
            proof {
                let m = self.modulus();
                assert(0 <= ans * i <= i64::MAX) by (nonlinear_arith)
                    requires
                        0 <= ans <= 1 || 0 <= ans < m,
                        1 <= i <= n,
                        m * n <= i64::MAX,
                        m > 0,
                ;
                if i > 1 {
                    lemma_rem_mul_left(factorial((i - 1) as nat), i as int, m);
                    assert(factorial((i - 1) as nat) * i == i * factorial((i - 1) as nat)) by (nonlinear_arith);
                }
                lemma_rem_bound(ans * i, m);
            }
            ans = self.mul(ans, i);
        }
        return ans;
    }
}

} // verus!
