//! Euler's theorem on even perfect numbers: each is `2^(p-1) (2^p - 1)`
//! with `2^p - 1` prime. The proof goes through the divisor sum `sigma`,
//! which for odd `m` satisfies `sigma(2^k m) = (2^(k+1) - 1) sigma(m)`.
use crate::amicable::{divisor_sum_below, proper_divisor_sum};
use crate::arith::{self, is_prime};
use crate::bignum::two_pow;
use crate::perfect_numbers::{mersenne, perfect_candidate};
use vstd::arithmetic::div_mod::*;
use vstd::prelude::*;

verus! {

/// The sum of the odd divisors of `n` that lie in `[1, b)`.
pub open spec fn odd_divisor_sum_below(n: nat, b: nat) -> nat
    decreases b,
{
    if b == 0 {
        0
    } else {
        let d = (b - 1) as nat;
        odd_divisor_sum_below(n, d) + if d % 2 == 1 && n % d == 0 {
            d
        } else {
            0
        }
    }
}

/// The sum of all divisors of `n`, `n` itself included.
pub open spec fn sigma(n: nat) -> nat {
    divisor_sum_below(n, n + 1)
}

proof fn lemma_double_divides(n: nat, b: nat)
    requires
        b >= 1,
    ensures
        (2 * n) % (2 * b) == 0 <==> n % b == 0,
{
    lemma_fundamental_div_mod(n as int, b as int);
    let t = n / b;
    let r = n % b;
    assert(2 * n == (2 * b) * t + 2 * r) by (nonlinear_arith)
        requires
            n == b * t + r,
    ;
    lemma_fundamental_div_mod_converse((2 * n) as int, (2 * b) as int, t as int, (2 * r) as int);
}

/// The divisors below `2b` of `2n`: the even ones are twice those of `n`
/// below `b`, and the odd ones are counted apart.
proof fn lemma_split_even(n: nat, b: nat)
    ensures
        divisor_sum_below(2 * n, 2 * b) == 2 * divisor_sum_below(n, b) + odd_divisor_sum_below(
            2 * n,
            2 * b,
        ),
    decreases b,
{
    if b > 0 {
        let c = (b - 1) as nat;
        lemma_split_even(n, c);
        assert(2 * b - 1 == 2 * c + 1);
        assert(divisor_sum_below(2 * n, 2 * b) == divisor_sum_below(2 * n, 2 * c + 1) + if (2 * c
            + 1) >= 1 && (2 * n) % (2 * c + 1) == 0 {
            2 * c + 1
        } else {
            0
        });
        assert(odd_divisor_sum_below(2 * n, 2 * b) == odd_divisor_sum_below(2 * n, 2 * c + 1) + if (2
            * c + 1) % 2 == 1 && (2 * n) % (2 * c + 1) == 0 {
            2 * c + 1
        } else {
            0
        });
        assert(odd_divisor_sum_below(2 * n, 2 * c + 1) == odd_divisor_sum_below(2 * n, 2 * c));
        if c >= 1 {
            lemma_double_divides(n, c);
        }
    }
}

/// For odd `d`, `d` divides `2n` exactly when it divides `n`.
proof fn lemma_odd_sum_double(n: nat, b: nat)
    ensures
        odd_divisor_sum_below(2 * n, b) == odd_divisor_sum_below(n, b),
    decreases b,
{
    if b > 0 {
        let d = (b - 1) as nat;
        lemma_odd_sum_double(n, d);
        if d % 2 == 1 {
            if (2 * n) % d == 0 {
                crate::twin_primes::lemma_odd_divides_double(n as int, d as int);
            }
            if n % d == 0 {
                arith::lemma_multiple_of_multiple(2, n as int, d as int);
            }
        }
    }
}

/// An odd number has only odd divisors.
proof fn lemma_odd_sum_of_odd(m: nat, b: nat)
    requires
        m % 2 == 1,
    ensures
        odd_divisor_sum_below(m, b) == divisor_sum_below(m, b),
    decreases b,
{
    if b > 0 {
        let d = (b - 1) as nat;
        lemma_odd_sum_of_odd(m, d);
        if d >= 1 && d % 2 == 0 && m % d == 0 {
            arith::lemma_divides_trans(2, d as int, m as int);
        }
    }
}

/// No divisor of `n >= 1` exceeds `n`.
proof fn lemma_sums_past_n(n: nat, b: nat)
    requires
        n >= 1,
        b >= n + 1,
    ensures
        divisor_sum_below(n, b) == divisor_sum_below(n, n + 1),
        odd_divisor_sum_below(n, b) == odd_divisor_sum_below(n, n + 1),
    decreases b,
{
    if b > n + 1 {
        let d = (b - 1) as nat;
        lemma_sums_past_n(n, d);
        lemma_small_mod(n, d);
    }
}

/// `sigma(2n) = 2 sigma(n) + (the sum of the odd divisors of n)`.
proof fn lemma_sigma_double(n: nat)
    requires
        n >= 1,
    ensures
        sigma(2 * n) == 2 * sigma(n) + odd_divisor_sum_below(n, n + 1),
{
    lemma_sums_past_n(2 * n, 2 * n + 2);
    lemma_split_even(n, n + 1);
    assert(2 * (n + 1) == 2 * n + 2);
    lemma_odd_sum_double(n, 2 * n + 2);
    lemma_sums_past_n(n, 2 * n + 2);
}

/// The odd divisors of `2^k m`, for odd `m`, are those of `m`.
proof fn lemma_odd_sigma(k: nat, m: nat)
    requires
        m % 2 == 1,
    ensures
        odd_divisor_sum_below(two_pow(k) * m, two_pow(k) * m + 1) == sigma(m),
    decreases k,
{
    crate::bignum::lemma_two_pow_pos(k);
    if k == 0 {
        assert(two_pow(0) == 1);
        assert(two_pow(0) * m == m);
        lemma_odd_sum_of_odd(m, m + 1);
    } else {
        let j = (k - 1) as nat;
        lemma_odd_sigma(j, m);
        let n = two_pow(j) * m;
        crate::bignum::lemma_two_pow_pos(j);
        assert(two_pow(k) * m == 2 * n) by (nonlinear_arith)
            requires
                two_pow(k) == 2 * two_pow(j),
                n == two_pow(j) * m,
        ;
        assert(n >= 1) by (nonlinear_arith)
            requires
                n == two_pow(j) * m,
                two_pow(j) >= 1,
                m >= 1,
        ;
        lemma_odd_sum_double(n, 2 * n + 1);
        lemma_sums_past_n(n, 2 * n + 1);
    }
}

/// `sigma(2^k m) = (2^(k+1) - 1) sigma(m)` for odd `m`.
pub proof fn lemma_sigma_power_times_odd(k: nat, m: nat)
    requires
        m % 2 == 1,
    ensures
        sigma(two_pow(k) * m) == (two_pow(k + 1) - 1) * sigma(m),
    decreases k,
{
    crate::bignum::lemma_two_pow_pos(k);
    if k == 0 {
        assert(two_pow(0) == 1);
        assert(two_pow(0) * m == m);
        assert(two_pow(1) == 2);
        assert((2 - 1) * sigma(m) == sigma(m));
    } else {
        let j = (k - 1) as nat;
        lemma_sigma_power_times_odd(j, m);
        lemma_odd_sigma(j, m);
        let n = two_pow(j) * m;
        crate::bignum::lemma_two_pow_pos(j);
        assert(two_pow(k) * m == 2 * n) by (nonlinear_arith)
            requires
                two_pow(k) == 2 * two_pow(j),
                n == two_pow(j) * m,
        ;
        assert(n >= 1) by (nonlinear_arith)
            requires
                n == two_pow(j) * m,
                two_pow(j) >= 1,
                m >= 1,
        ;
        lemma_sigma_double(n);
        assert(two_pow(k + 1) == 2 * two_pow(k));
        let s = sigma(m);
        let t = two_pow(k);
        assert(2 * ((t - 1) * s) + s == (2 * t - 1) * s) by (nonlinear_arith)
            requires
                t >= 1,
        ;
    }
}

proof fn lemma_sigma_proper(n: nat)
    requires
        n >= 1,
    ensures
        sigma(n) == proper_divisor_sum(n) + n,
{
    lemma_mod_self_0(n as int);
}

/// A number at least 2 with a divisor `c` strictly between 1 and itself
/// has `sigma(m) >= 1 + c + m`; without one, `sigma(m) >= 1 + m`.
proof fn lemma_sigma_lower(m: nat, c: nat)
    requires
        m >= 2,
        c == 1 || (1 < c < m && m % c == 0),
    ensures
        c == 1 ==> sigma(m) >= 1 + m,
        c > 1 ==> sigma(m) >= 1 + c + m,
{
    lemma_sigma_proper(m);
    assert(divisor_sum_below(m, 0) == 0);
    assert(divisor_sum_below(m, 1) == 0);
    assert(divisor_sum_below(m, 2) == 1);
    if c > 1 {
        crate::amicable::lemma_divisor_sum_monotone(m, 2, c);
        crate::amicable::lemma_divisor_sum_monotone(m, c + 1, m);
        assert(divisor_sum_below(m, c + 1) == divisor_sum_below(m, c) + c);
    } else {
        crate::amicable::lemma_divisor_sum_monotone(m, 2, m);
    }
}

/// A number at least 2 whose divisors sum to one more than itself is prime.
proof fn lemma_sigma_prime(m: nat)
    requires
        m >= 2,
        sigma(m) == m + 1,
    ensures
        is_prime(m as int),
{
    assert forall|d: int| 2 <= d < m implies #[trigger] ((m as int) % d) != 0 by {
        if (m as int) % d == 0 {
            lemma_sigma_lower(m, d as nat);
        }
    }
}

proof fn lemma_power_residue(d: nat, i: nat)
    requires
        d >= 2,
    ensures
        (two_pow(d * i) as int) % ((two_pow(d) - 1) as int) == 1int % ((two_pow(d) - 1) as int),
    decreases i,
{
    crate::bignum::lemma_two_pow_pos(d);
    crate::perfect_numbers::lemma_two_pow_strict(1, d);
    assert(two_pow(0) == 1);
    assert(two_pow(1) == 2);
    let a = (two_pow(d) - 1) as int;
    if i == 0 {
        assert(d * 0 == 0);
        assert(two_pow(0) == 1);
    } else {
        let j = (i - 1) as nat;
        lemma_power_residue(d, j);
        assert(d * i == d * j + d) by (nonlinear_arith)
            requires
                i == j + 1,
        ;
        crate::perfect_numbers::lemma_two_pow_add(d * j, d);
        let x = two_pow(d * j) as int;
        let y = two_pow(d) as int;
        lemma_mul_mod_noop(x, y, a);
        lemma_mod_multiples_vanish(1, 1, a);
        assert(y == a * 1 + 1);
        lemma_mul_mod_noop(1, 1, a);
    }
}

/// A prime Mersenne number `2^p - 1` has a prime exponent `p`.
pub proof fn lemma_mersenne_exponent_prime(p: nat)
    requires
        p >= 2,
        is_prime(mersenne(p) as int),
    ensures
        is_prime(p as int),
{
    assert forall|d: int| 2 <= d < p implies #[trigger] ((p as int) % d) != 0 by {
        if (p as int) % d == 0 {
            let dn = d as nat;
            lemma_fundamental_div_mod(p as int, d);
            let i = p / dn;
            assert(p == dn * i);
            lemma_power_residue(dn, i);
            let a = (two_pow(dn) - 1) as int;
            crate::perfect_numbers::lemma_two_pow_strict(dn, p);
            crate::perfect_numbers::lemma_two_pow_strict(1, dn);
            assert(two_pow(0) == 1);
            assert(two_pow(1) == 2);
            crate::bignum::lemma_two_pow_pos(p);
            lemma_mod_equivalence(two_pow(p) as int, 1, a);
            assert((mersenne(p) as int) % a == 0);
            assert(2 <= a < mersenne(p));
        }
    }
}

/// Euler: every even perfect number is `2^(p-1) (2^p - 1)` with `p` and
/// `2^p - 1` prime.
pub proof fn lemma_even_perfect_is_euclid(n: nat) -> (p: nat)
    requires
        n > 0,
        n % 2 == 0,
        proper_divisor_sum(n) == n,
    ensures
        p >= 2,
        is_prime(p as int),
        is_prime(mersenne(p) as int),
        n == perfect_candidate(p),
{
    let (k, m) = crate::perfect_numbers::lemma_odd_part(n);
    crate::bignum::lemma_two_pow_pos(k);
    if k == 0 {
        assert(two_pow(0) == 1);
        assert(n == m) by (nonlinear_arith)
            requires
                n == two_pow(k) * m,
                two_pow(k) == 1,
        ;
    }
    let p = k + 1;
    let t = two_pow(k);
    assert(two_pow(p) == 2 * t);
    let big_m = mersenne(p);
    assert(big_m == 2 * t - 1);
    assert(t >= 2) by {
        crate::perfect_numbers::lemma_two_pow_strict(0, k);
        assert(two_pow(0) == 1);
        assert(t == 2 * two_pow((k - 1) as nat));
    }
    lemma_sigma_proper(n);
    lemma_sigma_power_times_odd(k, m);
    let s = sigma(m);
    assert(big_m * s == two_pow(p) * m) by (nonlinear_arith)
        requires
            2 * n == big_m * s,
            n == t * m,
            two_pow(p) == 2 * t,
    ;
    assert(big_m % 2 == 1);
    lemma_mod_multiples_basic(s as int, big_m as int);
    assert((two_pow(p) * m) % big_m == 0) by (nonlinear_arith)
        requires
            big_m * s == two_pow(p) * m,
            ((s * big_m) as int) % (big_m as int) == 0,
    ;
    crate::perfect_numbers::lemma_odd_divisor(big_m, p, m);
    lemma_fundamental_div_mod(m as int, big_m as int);
    let c = m / big_m;
    assert(m == big_m * c);
    assert(c >= 1) by (nonlinear_arith)
        requires
            m == big_m * c,
            m >= 1,
    ;
    assert(s == (big_m + 1) * c) by (nonlinear_arith)
        requires
            big_m * s == two_pow(p) * m,
            two_pow(p) == big_m + 1,
            m == big_m * c,
            big_m >= 3,
    ;
    assert(m >= 3 * c) by (nonlinear_arith)
        requires
            m == big_m * c,
            big_m >= 3,
            c >= 1,
    ;
    if c > 1 {
        lemma_mod_multiples_basic(big_m as int, c as int);
        assert(m % c == 0) by (nonlinear_arith)
            requires
                m == big_m * c,
                ((big_m * c) as int) % (c as int) == 0,
        ;
        lemma_sigma_lower(m, c);
        assert(false) by (nonlinear_arith)
            requires
                s == (big_m + 1) * c,
                m == big_m * c,
                s >= 1 + c + m,
        ;
    }
    assert(m == big_m) by (nonlinear_arith)
        requires
            m == big_m * c,
            c == 1,
    ;
    assert(s == big_m + 1) by (nonlinear_arith)
        requires
            s == (big_m + 1) * c,
            c == 1,
    ;
    lemma_sigma_prime(big_m);
    lemma_mersenne_exponent_prime(p);
    assert(n == perfect_candidate(p));
    p
}

} // verus!
