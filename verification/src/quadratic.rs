//! Arithmetic in the rings `Z[sqrt(d)]`, with elements `a + b sqrt(d)`
//! written as pairs `(a, b)`: the binomial theorem there, and the
//! Frobenius law `(1 + x)^q = 1 + x^q` modulo a prime `q`, with Fermat's
//! little theorem as a consequence.
use crate::arith::{self, is_prime};
use vstd::arithmetic::div_mod::*;
use vstd::arithmetic::mul::*;
use vstd::prelude::*;

verus! {

/// The binomial coefficient `C(n, k)`, by Pascal's rule.
pub open spec fn binom(n: nat, k: nat) -> nat
    decreases n,
{
    if k == 0 {
        1
    } else if n == 0 {
        0
    } else {
        binom((n - 1) as nat, (k - 1) as nat) + binom((n - 1) as nat, k)
    }
}

proof fn lemma_binom_above(n: nat, k: nat)
    requires
        k > n,
    ensures
        binom(n, k) == 0,
    decreases n,
{
    if n > 0 {
        lemma_binom_above((n - 1) as nat, (k - 1) as nat);
        lemma_binom_above((n - 1) as nat, k);
    }
}

proof fn lemma_binom_diag(n: nat)
    ensures
        binom(n, n) == 1,
    decreases n,
{
    if n > 0 {
        lemma_binom_diag((n - 1) as nat);
        lemma_binom_above((n - 1) as nat, n);
    }
}

/// `k C(n, k) = n C(n - 1, k - 1)`.
proof fn lemma_binom_absorb(n: nat, k: nat)
    requires
        n >= 1,
        k >= 1,
    ensures
        k * binom(n, k) == n * binom((n - 1) as nat, (k - 1) as nat),
    decreases n,
{
    if n == 1 {
        if k >= 2 {
            lemma_binom_above(0, (k - 1) as nat);
            lemma_binom_above(0, k);
        }
    } else {
        let m = (n - 1) as nat;
        lemma_binom_absorb(m, k);
        lemma_binom_absorb(m, 1);
        let a = binom(m, (k - 1) as nat);
        let b = binom(m, k);
        assert(binom(n, k) == a + b);
        if k == 1 {
            assert(binom(m, 0) == 1);
            assert(1 * b == m * 1);
        } else {
            lemma_binom_absorb(m, (k - 1) as nat);
            let c = binom((m - 1) as nat, (k - 2) as nat);
            let e = binom((m - 1) as nat, (k - 1) as nat);
            assert(a == c + e);
            assert(k * (a + b) == n * a) by (nonlinear_arith)
                requires
                    k * b == m * e,
                    (k - 1) * a == m * c,
                    a == c + e,
                    n == m + 1,
            ;
        }
    }
}

/// A prime `q` divides `C(q, k)` for `0 < k < q`.
proof fn lemma_binom_prime(q: nat, k: nat)
    requires
        is_prime(q as int),
        0 < k < q,
    ensures
        binom(q, k) % q == 0,
{
    lemma_binom_absorb(q, k);
    let c = binom((q - 1) as nat, (k - 1) as nat);
    lemma_mod_multiples_basic(c as int, q as int);
    assert((k * binom(q, k)) as int == c * q) by (nonlinear_arith)
        requires
            k * binom(q, k) == q * c,
    ;
    arith::lemma_euclid(q as int, k as int, binom(q, k) as int);
    lemma_small_mod(k, q);
}

/// The product in `Z[sqrt(d)]`.
pub open spec fn rmul(u: (int, int), v: (int, int), d: int) -> (int, int) {
    (u.0 * v.0 + d * (u.1 * v.1), u.0 * v.1 + u.1 * v.0)
}

/// The sum in `Z[sqrt(d)]`.
pub open spec fn radd(u: (int, int), v: (int, int)) -> (int, int) {
    (u.0 + v.0, u.1 + v.1)
}

/// An integer multiple `c u`.
pub open spec fn rscale(c: int, u: (int, int)) -> (int, int) {
    (c * u.0, c * u.1)
}

/// `u^n` in `Z[sqrt(d)]`.
pub open spec fn rpow(u: (int, int), n: nat, d: int) -> (int, int)
    decreases n,
{
    if n == 0 {
        (1, 0)
    } else {
        rmul(u, rpow(u, (n - 1) as nat, d), d)
    }
}

/// The first `j` terms of the binomial expansion of `(1 + x)^n`:
/// the sum of `C(n, k) x^k` for `k < j`.
pub open spec fn bsum(x: (int, int), n: nat, j: nat, d: int) -> (int, int)
    decreases j,
{
    if j == 0 {
        (0, 0)
    } else {
        radd(bsum(x, n, (j - 1) as nat, d), rscale(binom(n, (j - 1) as nat) as int, rpow(x, (j - 1) as nat, d)))
    }
}

proof fn lemma_rmul_distrib(x: (int, int), y: (int, int), z: (int, int), d: int)
    ensures
        rmul(x, radd(y, z), d) == radd(rmul(x, y, d), rmul(x, z, d)),
{
    lemma_mul_is_distributive_add(x.0, y.0, z.0);
    lemma_mul_is_distributive_add(x.1, y.1, z.1);
    lemma_mul_is_distributive_add(d, x.1 * y.1, x.1 * z.1);
    lemma_mul_is_distributive_add(x.0, y.1, z.1);
    lemma_mul_is_distributive_add(x.1, y.0, z.0);
}

proof fn lemma_rmul_scale(x: (int, int), c: int, y: (int, int), d: int)
    ensures
        rmul(x, rscale(c, y), d) == rscale(c, rmul(x, y, d)),
{
    assert(x.0 * (c * y.0) == c * (x.0 * y.0)) by (nonlinear_arith);
    assert(x.1 * (c * y.1) == c * (x.1 * y.1)) by (nonlinear_arith);
    assert(d * (c * (x.1 * y.1)) == c * (d * (x.1 * y.1))) by (nonlinear_arith);
    assert(x.0 * (c * y.1) == c * (x.0 * y.1)) by (nonlinear_arith);
    assert(x.1 * (c * y.0) == c * (x.1 * y.0)) by (nonlinear_arith);
    lemma_mul_is_distributive_add(c, x.0 * y.0, d * (x.1 * y.1));
    lemma_mul_is_distributive_add(c, x.0 * y.1, x.1 * y.0);
}

proof fn lemma_rscale_add(a: int, b: int, v: (int, int))
    ensures
        rscale(a + b, v) == radd(rscale(a, v), rscale(b, v)),
        rscale(1, v) == v,
        rscale(0, v) == (0int, 0int),
{
    lemma_mul_is_distributive_add_other_way(v.0, a, b);
    lemma_mul_is_distributive_add_other_way(v.1, a, b);
}

proof fn lemma_rmul_one_plus(x: (int, int), y: (int, int), d: int)
    ensures
        rmul(radd((1, 0), x), y, d) == radd(y, rmul(x, y, d)),
        rmul(x, (0, 0), d) == (0int, 0int),
{
    lemma_mul_is_distributive_add_other_way(y.0, 1, x.0);
    lemma_mul_is_distributive_add_other_way(y.1, 1, x.0);
    assert((0 + x.1) * y.1 == x.1 * y.1);
    assert((0 + x.1) * y.0 == x.1 * y.0);
    assert(x.0 * 0 + d * (x.1 * 0) == 0) by (nonlinear_arith);
    assert(x.0 * 0 + x.1 * 0 == 0) by (nonlinear_arith);
}

/// Pascal's rule on the partial expansions.
proof fn lemma_bsum_pascal(x: (int, int), n: nat, j: nat, d: int)
    ensures
        bsum(x, n + 1, j + 1, d) == radd(bsum(x, n, j + 1, d), rmul(x, bsum(x, n, j, d), d)),
    decreases j,
{
    if j == 0 {
        lemma_rscale_add(0, 1, rpow(x, 0, d));
        lemma_rmul_one_plus(x, (0, 0), d);
        assert(bsum(x, n, 0, d) == (0int, 0int));
        assert(bsum(x, n + 1, 0, d) == (0int, 0int));
        assert(binom(n + 1, 0) == 1);
        assert(binom(n, 0) == 1);
        assert(bsum(x, n + 1, 1, d) == radd((0, 0), rscale(1, rpow(x, 0, d))));
        assert(bsum(x, n, 1, d) == radd((0, 0), rscale(1, rpow(x, 0, d))));
    } else {
        let i = (j - 1) as nat;
        lemma_bsum_pascal(x, n, i, d);
        let xj = rpow(x, j, d);
        let b1 = binom(n, i) as int;
        let b2 = binom(n, j) as int;
        assert(binom(n + 1, j) == binom(n, i) + binom(n, j));
        lemma_rscale_add(b1, b2, xj);
        lemma_rmul_distrib(x, bsum(x, n, i, d), rscale(b1, rpow(x, i, d)), d);
        lemma_rmul_scale(x, b1, rpow(x, i, d), d);
        assert(rpow(x, j, d) == rmul(x, rpow(x, i, d), d));
        assert(i + 1 == j);
        let bnj = bsum(x, n, j, d);
        let bni = bsum(x, n, i, d);
        assert(bnj == radd(bni, rscale(b1, rpow(x, i, d))));
        assert(bsum(x, n, j + 1, d) == radd(bnj, rscale(b2, xj)));
        assert(bsum(x, n + 1, j, d) == radd(bnj, rmul(x, bni, d)));
        assert(bsum(x, n + 1, j + 1, d) == radd(bsum(x, n + 1, j, d), rscale(b1 + b2, xj)));
        assert(rmul(x, bnj, d) == radd(rmul(x, bni, d), rscale(b1, xj)));
    }
}

/// The binomial theorem: `(1 + x)^n` is the sum of `C(n, k) x^k`.
pub proof fn lemma_binomial(x: (int, int), n: nat, d: int)
    ensures
        rpow(radd((1, 0), x), n, d) == bsum(x, n, n + 1, d),
    decreases n,
{
    if n == 0 {
        lemma_rscale_add(0, 1, rpow(x, 0, d));
        assert(bsum(x, 0, 0, d) == (0int, 0int));
        assert(bsum(x, 0, 1, d) == radd((0, 0), rscale(1, rpow(x, 0, d))));
    } else {
        let m = (n - 1) as nat;
        let y = radd((1, 0), x);
        lemma_binomial(x, m, d);
        lemma_rmul_one_plus(x, rpow(y, m, d), d);
        lemma_bsum_pascal(x, m, m + 1, d);
        lemma_binom_above(m, m + 1);
        lemma_rscale_add(0, 0, rpow(x, m + 1, d));
        assert(rpow(y, n, d) == rmul(y, rpow(y, m, d), d));
        assert(m + 1 == n);
        assert(bsum(x, m, m + 2, d) == radd(bsum(x, m, m + 1, d), rscale(0, rpow(x, m + 1, d))));
        assert(bsum(x, m, m + 2, d) == bsum(x, m, m + 1, d));
    }
}

/// `u` and `v` agree modulo `q` in both parts.
pub open spec fn eqv(u: (int, int), v: (int, int), q: int) -> bool {
    u.0 % q == v.0 % q && u.1 % q == v.1 % q
}

/// Differences that are multiples of `q` give agreement modulo `q`.
pub proof fn lemma_eqv_intro(u: (int, int), v: (int, int), q: int, x: int, y: int)
    requires
        q > 0,
        u.0 == v.0 + q * x,
        u.1 == v.1 + q * y,
    ensures
        eqv(u, v, q),
{
    lemma_mod_multiples_vanish(x, v.0, q);
    lemma_mod_multiples_vanish(y, v.1, q);
}

/// Agreement modulo `q` gives differences that are multiples of `q`.
pub proof fn lemma_eqv_elim(u: (int, int), v: (int, int), q: int) -> (xy: (int, int))
    requires
        q > 0,
        eqv(u, v, q),
    ensures
        u.0 == v.0 + q * xy.0,
        u.1 == v.1 + q * xy.1,
{
    lemma_fundamental_div_mod(u.0, q);
    lemma_fundamental_div_mod(v.0, q);
    lemma_fundamental_div_mod(u.1, q);
    lemma_fundamental_div_mod(v.1, q);
    lemma_mul_is_distributive_sub(q, u.0 / q, v.0 / q);
    lemma_mul_is_distributive_sub(q, u.1 / q, v.1 / q);
    (u.0 / q - v.0 / q, u.1 / q - v.1 / q)
}

/// `(a + q x)(c + q y) = a c + q z` for some `z`.
pub proof fn lemma_expand(a: int, c: int, x: int, y: int, q: int) -> (z: int)
    ensures
        (a + q * x) * (c + q * y) == a * c + q * z,
{
    lemma_mul_is_distributive_add_other_way(c + q * y, a, q * x);
    lemma_mul_is_distributive_add(a, c, q * y);
    lemma_mul_is_distributive_add(q * x, c, q * y);
    lemma_mul_is_associative(a, q, y);
    lemma_mul_is_commutative(a, q);
    lemma_mul_is_associative(q, a, y);
    lemma_mul_is_associative(q, x, c);
    lemma_mul_is_associative(q, x, q * y);
    let z = a * y + x * c + x * (q * y);
    lemma_mul_is_distributive_add(q, a * y + x * c, x * (q * y));
    lemma_mul_is_distributive_add(q, a * y, x * c);
    z
}

/// Agreement modulo `q` is kept by addition.
pub proof fn lemma_eqv_add(a: (int, int), a2: (int, int), b: (int, int), b2: (int, int), q: int)
    requires
        q > 0,
        eqv(a, a2, q),
        eqv(b, b2, q),
    ensures
        eqv(radd(a, b), radd(a2, b2), q),
{
    let (x0, x1) = lemma_eqv_elim(a, a2, q);
    let (y0, y1) = lemma_eqv_elim(b, b2, q);
    lemma_mul_is_distributive_add(q, x0, y0);
    lemma_mul_is_distributive_add(q, x1, y1);
    lemma_eqv_intro(radd(a, b), radd(a2, b2), q, x0 + y0, x1 + y1);
}

proof fn lemma_scale_multiple(c: int, v: (int, int), q: int)
    requires
        q > 0,
        c % q == 0,
    ensures
        eqv(rscale(c, v), (0, 0), q),
{
    lemma_fundamental_div_mod(c, q);
    let t = c / q;
    lemma_mul_is_associative(q, t, v.0);
    lemma_mul_is_associative(q, t, v.1);
    lemma_eqv_intro(rscale(c, v), (0, 0), q, t * v.0, t * v.1);
}

proof fn lemma_bsum_prime(x: (int, int), q: nat, j: nat, d: int)
    requires
        is_prime(q as int),
        1 <= j <= q,
    ensures
        eqv(bsum(x, q, j, d), (1, 0), q as int),
    decreases j,
{
    lemma_rscale_add(0, 1, rpow(x, 0, d));
    if j == 1 {
        assert(bsum(x, q, 0, d) == (0int, 0int));
        assert(bsum(x, q, 1, d) == radd((0, 0), rscale(1, rpow(x, 0, d))));
    } else {
        let i = (j - 1) as nat;
        lemma_bsum_prime(x, q, i, d);
        lemma_binom_prime(q, i);
        let term = rscale(binom(q, i) as int, rpow(x, i, d));
        lemma_scale_multiple(binom(q, i) as int, rpow(x, i, d), q as int);
        lemma_eqv_add(bsum(x, q, i, d), (1, 0), term, (0, 0), q as int);
    }
}

/// The Frobenius law: modulo a prime `q`, `(1 + x)^q = 1 + x^q`.
pub proof fn lemma_frobenius(x: (int, int), q: nat, d: int)
    requires
        is_prime(q as int),
    ensures
        eqv(rpow(radd((1, 0), x), q, d), radd((1, 0), rpow(x, q, d)), q as int),
{
    lemma_binomial(x, q, d);
    lemma_binom_diag(q);
    lemma_rscale_add(0, 1, rpow(x, q, d));
    lemma_bsum_prime(x, q, q, d);
    assert(bsum(x, q, q + 1, d) == radd(bsum(x, q, q, d), rscale(1, rpow(x, q, d))));
    lemma_eqv_add(bsum(x, q, q, d), (1, 0), rpow(x, q, d), rpow(x, q, d), q as int);
}

/// `a^n` for integers.
pub open spec fn ipow(a: int, n: nat) -> int
    decreases n,
{
    if n == 0 {
        1
    } else {
        a * ipow(a, (n - 1) as nat)
    }
}

/// Powers of an integer stay integers: `(c, 0)^n = (c^n, 0)`.
proof fn lemma_rpow_int(c: int, n: nat, d: int)
    ensures
        rpow((c, 0), n, d) == (ipow(c, n), 0int),
    decreases n,
{
    if n > 0 {
        lemma_rpow_int(c, (n - 1) as nat, d);
        let v = ipow(c, (n - 1) as nat);
        assert(rmul((c, 0), (v, 0), d) == (c * v, 0int)) by {
            lemma_mul_basics(d);
            assert(d * (0 * 0) == 0);
            assert(c * 0 + 0 * v == 0);
        }
    }
}

/// Fermat's little theorem: `a^q = a` modulo a prime `q`.
pub proof fn lemma_fermat(a: nat, q: nat)
    requires
        is_prime(q as int),
    ensures
        ipow(a as int, q) % (q as int) == (a as int) % (q as int),
    decreases a,
{
    if a == 0 {
        assert(ipow(0, q) == 0 * ipow(0, (q - 1) as nat));
    } else {
        let b = (a - 1) as nat;
        lemma_fermat(b, q);
        lemma_frobenius((b as int, 0), q, 0);
        lemma_rpow_int(b as int, q, 0);
        lemma_rpow_int(a as int, q, 0);
        assert(radd((1, 0), (b as int, 0int)) == (a as int, 0int));
        assert(eqv((ipow(b as int, q), 0), (b as int, 0), q as int));
        lemma_eqv_add((1, 0), (1, 0), (ipow(b as int, q), 0), (b as int, 0), q as int);
    }
}

/// `sqrt(d)^(2m + 1) = d^m sqrt(d)`.
pub proof fn lemma_root_pow(m: nat, d: int)
    ensures
        rpow((0, 1), 2 * m + 1, d) == (0int, ipow(d, m)),
    decreases m,
{
    if m == 0 {
        assert(rpow((0, 1), 0, d) == (1int, 0int));
        assert(rmul((0, 1), (1, 0), d) == (0int, 1int)) by {
            lemma_mul_basics(d);
            assert(d * (1 * 0) == 0);
        }
    } else {
        let j = (m - 1) as nat;
        lemma_root_pow(j, d);
        let e = ipow(d, j);
        assert(rpow((0, 1), 2 * m + 1, d) == rmul((0, 1), rpow((0, 1), 2 * m, d), d));
        assert(rpow((0, 1), 2 * m, d) == rmul((0, 1), rpow((0, 1), 2 * j + 1, d), d));
        assert(rmul((0, 1), (0, e), d) == (d * e, 0int)) by {
            assert(0 * 0 + d * (1 * e) == d * e);
            assert(0 * e + 1 * 0 == 0);
        }
        assert(rmul((0, 1), (d * e, 0), d) == (0int, d * e)) by {
            lemma_mul_basics(d);
            lemma_mul_basics(d * e);
            assert(0 * (d * e) + d * (1 * 0) == 0);
            assert(0 * 0 + 1 * (d * e) == d * e);
        }
    }
}

/// `(-a)^n` is `a^n` for even `n` and `-a^n` for odd `n`.
pub proof fn lemma_ipow_neg(a: int, n: nat)
    ensures
        ipow(-a, n) == (if n % 2 == 0 { ipow(a, n) } else { -ipow(a, n) }),
    decreases n,
{
    if n > 0 {
        let j = (n - 1) as nat;
        lemma_ipow_neg(a, j);
        let x = ipow(a, j);
        assert((-a) * x == -(a * x)) by (nonlinear_arith);
        assert((-a) * (-x) == a * x) by (nonlinear_arith);
    }
}

/// `x^(2n) = (x * x)^n`.
pub proof fn lemma_ipow_square(x: int, n: nat)
    ensures
        ipow(x, 2 * n) == ipow(x * x, n),
    decreases n,
{
    if n > 0 {
        let j = (n - 1) as nat;
        lemma_ipow_square(x, j);
        assert(ipow(x, 2 * n) == x * ipow(x, (2 * n - 1) as nat));
        assert(ipow(x, (2 * n - 1) as nat) == x * ipow(x, 2 * j));
        lemma_mul_is_associative(x, x, ipow(x, 2 * j));
    }
}

/// Powers of numbers that agree modulo `q` agree modulo `q`.
pub proof fn lemma_ipow_congruent(a: int, b: int, n: nat, q: int)
    requires
        q > 0,
        a % q == b % q,
    ensures
        ipow(a, n) % q == ipow(b, n) % q,
    decreases n,
{
    if n > 0 {
        let j = (n - 1) as nat;
        lemma_ipow_congruent(a, b, j, q);
        lemma_mul_mod_noop(a, ipow(a, j), q);
        lemma_mul_mod_noop(b, ipow(b, j), q);
    }
}

/// `2^n` as an integer power.
pub proof fn lemma_ipow_two(n: nat)
    ensures
        ipow(2, n) == crate::bignum::two_pow(n) as int,
    decreases n,
{
    if n > 0 {
        lemma_ipow_two((n - 1) as nat);
    }
}

} // verus!
