//! Why the Lucas-Lehmer test is right: it passes for `p` exactly when the
//! Mersenne number `2^p - 1` is prime. The proofs work with the powers of
//! `2 + sqrt(3)`, written as pairs `(a, b)` for `a + b * sqrt(3)`: soundness
//! by counting the powers modulo a small prime factor, completeness by the
//! Frobenius law modulo `2^p - 1` (see `quadratic`).
use crate::arith::{self, is_prime};
use crate::bignum::two_pow;
use crate::quadratic::{
    eqv, ipow, lemma_eqv_elim, lemma_eqv_intro, lemma_expand, radd, rmul, rpow,
};
use crate::perfect_numbers::{ll_term, lucas_lehmer_holds, mersenne};
use vstd::arithmetic::div_mod::*;
use vstd::arithmetic::mul::*;
use vstd::prelude::*;
use vstd::set_lib::*;

verus! {

/// The product of `a + b sqrt(3)` and `c + d sqrt(3)`.
pub open spec fn pmul(u: (int, int), v: (int, int)) -> (int, int) {
    (u.0 * v.0 + 3 * u.1 * v.1, u.0 * v.1 + u.1 * v.0)
}

/// `(2 + sqrt(3))^n`.
pub open spec fn w_pow(n: nat) -> (int, int)
    decreases n,
{
    if n == 0 {
        (1, 0)
    } else {
        let u = w_pow((n - 1) as nat);
        (2 * u.0 + 3 * u.1, u.0 + 2 * u.1)
    }
}

/// The Lucas-Lehmer numbers without reduction: `2 * Re((2 + sqrt(3))^(2^k))`.
pub open spec fn ll_exact(k: nat) -> int {
    2 * w_pow(two_pow(k)).0
}

/// Agreement modulo `q` is kept by multiplication.
proof fn lemma_pmul_congruent(u: (int, int), u2: (int, int), v: (int, int), v2: (int, int), q: int)
    requires
        q > 0,
        eqv(u, u2, q),
        eqv(v, v2, q),
    ensures
        eqv(pmul(u, v), pmul(u2, v2), q),
{
    let (x0, x1) = lemma_eqv_elim(u, u2, q);
    let (y0, y1) = lemma_eqv_elim(v, v2, q);
    let (a, b, c, d) = (u2.0, u2.1, v2.0, v2.1);
    let z1 = lemma_expand(a, c, x0, y0, q);
    let z2 = lemma_expand(b, d, x1, y1, q);
    let z3 = lemma_expand(a, d, x0, y1, q);
    let z4 = lemma_expand(b, c, x1, y0, q);
    lemma_mul_is_associative(3, u.1, v.1);
    lemma_mul_is_associative(3, b, d);
    lemma_mul_is_distributive_add(q, z1, 3 * z2);
    lemma_mul_is_associative(3, q, z2);
    lemma_mul_is_commutative(3, q);
    lemma_mul_is_associative(q, 3, z2);
    lemma_mul_is_distributive_add(q, z3, z4);
    lemma_eqv_intro(pmul(u, v), pmul(u2, v2), q, z1 + 3 * z2, z3 + z4);
}

proof fn lemma_pmul_unit(u: (int, int), s: int)
    ensures
        pmul((1, 0), u) == u,
        pmul((s, 0), (-1, 0)) == (-s, 0int),
{
    assert(1 * u.0 + 3 * 0 * u.1 == u.0) by (nonlinear_arith);
    assert(1 * u.1 + 0 * u.0 == u.1) by (nonlinear_arith);
    assert(s * (-1) + 3 * 0 * 0 == -s) by (nonlinear_arith);
    assert(s * 0 + 0 * (-1) == 0) by (nonlinear_arith);
}

/// The powers of `2 + sqrt(3)` have norm 1.
proof fn lemma_norm(n: nat)
    ensures
        w_pow(n).0 * w_pow(n).0 - 3 * w_pow(n).1 * w_pow(n).1 == 1,
    decreases n,
{
    if n > 0 {
        lemma_norm((n - 1) as nat);
        let u = w_pow((n - 1) as nat);
        let a = u.0;
        let b = u.1;
        assert(w_pow(n) == (2 * a + 3 * b, a + 2 * b));
        assert((2 * a + 3 * b) * (2 * a + 3 * b) - 3 * (a + 2 * b) * (a + 2 * b) == a * a - 3 * b
            * b) by (nonlinear_arith);
    } else {
        assert(w_pow(0) == (1int, 0int));
        assert(1int * 1int - 3 * 0int * 0int == 1) by (nonlinear_arith);
    }
}

/// `(2 + sqrt(3))^(m + n) = (2 + sqrt(3))^m * (2 + sqrt(3))^n`.
proof fn lemma_pow_add(m: nat, n: nat)
    ensures
        w_pow(m + n) == pmul(w_pow(m), w_pow(n)),
    decreases n,
{
    if n == 0 {
        let u = w_pow(m);
        assert(pmul(u, (1, 0)) == u) by {
            assert(u.0 * 1 + 3 * u.1 * 0 == u.0) by (nonlinear_arith);
            assert(u.0 * 0 + u.1 * 1 == u.1) by (nonlinear_arith);
        }
    } else {
        lemma_pow_add(m, (n - 1) as nat);
        let u = w_pow(m);
        let v = w_pow((n - 1) as nat);
        let (a, b, c, d) = (u.0, u.1, v.0, v.1);
        assert(w_pow(m + n) == ({
            let x = w_pow((m + n - 1) as nat);
            (2 * x.0 + 3 * x.1, x.0 + 2 * x.1)
        }));
        assert(2 * (a * c + 3 * b * d) + 3 * (a * d + b * c) == a * (2 * c + 3 * d) + 3 * b * (c
            + 2 * d)) by (nonlinear_arith);
        assert((a * c + 3 * b * d) + 2 * (a * d + b * c) == a * (c + 2 * d) + b * (2 * c + 3 * d))
            by (nonlinear_arith);
    }
}

/// The unreduced numbers follow `s(k + 1) = s(k)^2 - 2`, from `s(0) = 4`.
proof fn lemma_ll_exact_step(k: nat)
    ensures
        ll_exact(0) == 4,
        ll_exact(k + 1) == ll_exact(k) * ll_exact(k) - 2,
{
    assert(two_pow(0) == 1);
    assert(w_pow(0) == (1int, 0int));
    assert(w_pow(1) == (2int, 1int));
    let m = two_pow(k);
    assert(two_pow(k + 1) == m + m);
    lemma_pow_add(m, m);
    lemma_norm(m);
    let a = w_pow(m).0;
    let b = w_pow(m).1;
    assert(2 * (a * a + 3 * b * b) == (2 * a) * (2 * a) - 2) by (nonlinear_arith)
        requires
            a * a - 3 * b * b == 1,
    ;
}

/// The reduced Lucas-Lehmer terms agree with the unreduced ones modulo `m`.
proof fn lemma_ll_congruent(k: nat, m: nat)
    requires
        m > 4,
    ensures
        (ll_term(k, m) - ll_exact(k)) % (m as int) == 0,
    decreases k,
{
    lemma_ll_exact_step(k);
    if k == 0 {
        assert(ll_term(0, m) == 4);
        lemma_mod_self_0(m as int);
        assert((4 - 4) % (m as int) == 0) by {
            lemma_small_mod(0, m);
        }
    } else {
        let j = (k - 1) as nat;
        lemma_ll_congruent(j, m);
        lemma_ll_exact_step(j);
        let x = ll_term(j, m);
        let y = ll_exact(j);
        let mi = m as int;
        lemma_fundamental_div_mod(x - y, mi);
        let t = (x - y) / mi;
        lemma_fundamental_div_mod(x * x - 2, mi);
        let u = (x * x - 2) / mi;
        assert(ll_term(k, m) == (x * x - 2) % mi);
        assert(ll_term(k, m) - ll_exact(k) == mi * ((x + y) * t - u)) by (nonlinear_arith)
            requires
                x - y == mi * t + 0,
                x * x - 2 == mi * u + (x * x - 2) % mi,
                ll_term(k, m) == (x * x - 2) % mi,
                ll_exact(k) == y * y - 2,
        ;
        lemma_mod_multiples_basic((x + y) * t - u, mi);
        assert(mi * ((x + y) * t - u) == ((x + y) * t - u) * mi) by (nonlinear_arith);
    }
}

/// The multiples of a power `e` that is `-1` modulo `q` alternate between
/// `1` and `-1`.
proof fn lemma_pow_sign(e: nat, o: nat, q: int)
    requires
        q > 0,
        eqv(w_pow(e), (-1, 0), q),
    ensures
        eqv(w_pow(e * o), (if o % 2 == 0 { 1int } else { -1int }, 0int), q),
    decreases o,
{
    if o == 0 {
        assert(e * 0 == 0);
        assert(w_pow(0) == (1int, 0int));
    } else {
        let j = (o - 1) as nat;
        lemma_pow_sign(e, j, q);
        let sj: int = if j % 2 == 0 { 1 } else { -1 };
        assert(e * o == e * j + e) by (nonlinear_arith)
            requires
                o == j + 1,
        ;
        lemma_pow_add(e * j, e);
        lemma_pmul_congruent(w_pow(e * j), (sj, 0), w_pow(e), (-1, 0), q);
        lemma_pmul_unit((1, 0), sj);
    }
}

/// The multiples of a power that is `1` modulo `q` are `1` modulo `q`.
proof fn lemma_pow_mul_one(t: nat, k: nat, q: int)
    requires
        q > 0,
        eqv(w_pow(t), (1, 0), q),
    ensures
        eqv(w_pow(t * k), (1, 0), q),
    decreases k,
{
    if k == 0 {
        assert(t * 0 == 0);
        assert(w_pow(0) == (1int, 0int));
    } else {
        let j = (k - 1) as nat;
        lemma_pow_mul_one(t, j, q);
        assert(t * k == t * j + t) by (nonlinear_arith)
            requires
                k == j + 1,
        ;
        lemma_pow_add(t * j, t);
        lemma_pmul_congruent(w_pow(t * j), (1, 0), w_pow(t), (1, 0), q);
        lemma_pmul_unit((1, 0), 1);
    }
}

/// When `(2 + sqrt(3))^(2^(p-1))` is `-1` modulo `q > 2`, no smaller positive
/// power below `2^p` is `1`.
proof fn lemma_no_early_one(p: nat, s: nat, q: int)
    requires
        p >= 1,
        q > 2,
        0 < s < two_pow(p),
        eqv(w_pow(two_pow((p - 1) as nat)), (-1, 0), q),
    ensures
        !eqv(w_pow(s), (1, 0), q),
{
    let e = two_pow((p - 1) as nat);
    let (v, o) = crate::perfect_numbers::lemma_odd_part(s);
    crate::bignum::lemma_two_pow_pos(v);
    assert(s >= two_pow(v)) by (nonlinear_arith)
        requires
            s == two_pow(v) * o,
            o >= 1,
            two_pow(v) >= 1,
    ;
    if v >= p {
        if v > p {
            crate::perfect_numbers::lemma_two_pow_strict(p, v);
        }
    } else if eqv(w_pow(s), (1, 0), q) {
        let k = two_pow((p - 1 - v) as nat);
        crate::perfect_numbers::lemma_two_pow_add(v, (p - 1 - v) as nat);
        assert(v + (p - 1 - v) as nat == (p - 1) as nat);
        assert(s * k == e * o) by (nonlinear_arith)
            requires
                s == two_pow(v) * o,
                e == two_pow(v) * k,
        ;
        lemma_pow_mul_one(s, k, q);
        lemma_pow_sign(e, o, q);
        lemma_mod_equivalence(1, -1, q);
        lemma_small_mod(2, q as nat);
    }
}

/// Below `2^p` the powers of `2 + sqrt(3)` are pairwise distinct modulo `q`.
proof fn lemma_powers_distinct(p: nat, i: nat, j: nat, q: int)
    requires
        p >= 1,
        q > 2,
        i < j < two_pow(p),
        eqv(w_pow(two_pow((p - 1) as nat)), (-1, 0), q),
    ensures
        !eqv(w_pow(i), w_pow(j), q),
{
    let e = two_pow((p - 1) as nat);
    if !eqv(w_pow(i), w_pow(j), q) {
        return;
    }
    let r = (two_pow(p) - j) as nat;
    lemma_pow_add(i, r);
    lemma_pow_add(j, r);
    lemma_pmul_congruent(w_pow(i), w_pow(j), w_pow(r), w_pow(r), q);
    lemma_pow_sign(e, 2, q);
    assert(two_pow(p) == 2 * e);
    assert(e * 2 == two_pow(p));
    assert(j + r == two_pow(p));
    lemma_no_early_one(p, i + r, q);
}

/// A pair of residues modulo `q` as one number in `[0, q * q)`.
pub open spec fn code(u: (int, int), q: int) -> int {
    (u.0 % q) * q + u.1 % q
}

/// Pairs with the same code agree modulo `q`.
proof fn lemma_code_eq(u: (int, int), v: (int, int), q: int)
    requires
        q > 0,
        code(u, q) == code(v, q),
    ensures
        eqv(u, v, q),
{
    lemma_mod_bound(u.0, q);
    lemma_mod_bound(u.1, q);
    lemma_mod_bound(v.0, q);
    lemma_mod_bound(v.1, q);
    lemma_fundamental_div_mod_converse(code(u, q), q, u.0 % q, u.1 % q);
    lemma_fundamental_div_mod_converse(code(v, q), q, v.0 % q, v.1 % q);
}

/// The code of a power lies in `[1, q * q)`: a power has norm 1, so it is
/// not 0 modulo `q > 2`.
proof fn lemma_code_range(n: nat, q: int)
    requires
        q > 2,
    ensures
        1 <= code(w_pow(n), q) < q * q,
{
    let u = w_pow(n);
    let a = u.0 % q;
    let b = u.1 % q;
    lemma_mod_bound(u.0, q);
    lemma_mod_bound(u.1, q);
    assert(0 <= a * q + b < q * q) by (nonlinear_arith)
        requires
            0 <= a < q,
            0 <= b < q,
    ;
    if a * q + b == 0 {
        assert(a == 0 && b == 0) by (nonlinear_arith)
            requires
                0 <= a < q,
                0 <= b < q,
                a * q + b == 0,
        ;
        lemma_small_mod(0, q as nat);
        let (x, y) = lemma_eqv_elim(u, (0, 0), q);
        lemma_norm(n);
        assert(q * (x * (q * x) - 3 * (y * (q * y))) == 1) by (nonlinear_arith)
            requires
                u.0 == 0 + q * x,
                u.1 == 0 + q * y,
                u.0 * u.0 - 3 * u.1 * u.1 == 1,
        ;
        let k = x * (q * x) - 3 * (y * (q * y));
        assert(false) by (nonlinear_arith)
            requires
                q > 2,
                q * k == 1,
        ;
    }
}

/// When `(2 + sqrt(3))^(2^(p-1))` is `-1` modulo `q > 2`, then `2^p < q * q`:
/// the first `2^p` powers are distinct nonzero pairs of residues.
proof fn lemma_order_bound(p: nat, q: int)
    requires
        p >= 1,
        q > 2,
        eqv(w_pow(two_pow((p - 1) as nat)), (-1, 0), q),
    ensures
        two_pow(p) < q * q,
{
    let n = two_pow(p) as int;
    let dom = set_int_range(0, n);
    let f = |i: int| code(w_pow(i as nat), q);
    assert forall|x1: int, x2: int|
        dom.contains(x1) && dom.contains(x2) && #[trigger] f(x1) == #[trigger] f(x2) implies x1
        == x2 by {
        lemma_code_eq(w_pow(x1 as nat), w_pow(x2 as nat), q);
        if x1 < x2 {
            lemma_powers_distinct(p, x1 as nat, x2 as nat, q);
        } else if x2 < x1 {
            lemma_powers_distinct(p, x2 as nat, x1 as nat, q);
        }
    }
    let img = dom.map(f);
    let range = set_int_range(1, q * q);
    lemma_int_range(0, n);
    lemma_map_size(dom, img, f);
    assert forall|y: int| img.contains(y) implies range.contains(y) by {
        let i = choose|i: int| dom.contains(i) && y == f(i);
        lemma_code_range(i as nat, q);
    }
    assert(q * q >= 1) by (nonlinear_arith)
        requires
            q > 2,
    ;
    lemma_int_range(1, q * q);
    lemma_len_subset(img, range);
}

/// When the test passes for `p >= 3`, `(2 + sqrt(3))^(2^(p-1))` is `-1`
/// modulo every odd divisor `q > 2` of `2^p - 1`.
proof fn lemma_half_power(p: nat, q: int)
    requires
        p >= 3,
        lucas_lehmer_holds(p),
        q > 2,
        q % 2 == 1,
        (mersenne(p) as int) % q == 0,
    ensures
        eqv(w_pow(two_pow((p - 1) as nat)), (-1, 0), q),
{
    let big_m = mersenne(p);
    let k = (p - 2) as nat;
    let m = two_pow(k);
    assert(two_pow(p) == 2 * two_pow((p - 1) as nat));
    assert(two_pow((p - 1) as nat) == 2 * m);
    crate::bignum::lemma_two_pow_pos(k);
    assert(two_pow(p) >= 8) by {
        lemma_two_pow_ge_of(k);
    }
    lemma_ll_congruent(k, big_m);
    let a = w_pow(m).0;
    let b = w_pow(m).1;
    assert(ll_exact(k) == 2 * a);
    assert((-(2 * a)) % (big_m as int) == 0);
    arith::lemma_divides_trans(q, big_m as int, -(2 * a));
    assert(2 * (-a) == -(2 * a));
    crate::twin_primes::lemma_odd_divides_double(-a, q);
    lemma_fundamental_div_mod(-a, q);
    let c = (-a) / q;
    assert(a == q * (-c)) by (nonlinear_arith)
        requires
            -a == q * c + 0,
    ;
    lemma_pow_add(m, m);
    lemma_norm(m);
    assert(a * a + 3 * b * b == -1 + q * (2 * q * c * c)) by (nonlinear_arith)
        requires
            a == q * (-c),
            a * a - 3 * b * b == 1,
    ;
    assert(a * b + b * a == 0 + q * (-2 * c * b)) by (nonlinear_arith)
        requires
            a == q * (-c),
    ;
    lemma_eqv_intro(w_pow(m + m), (-1, 0), q, 2 * q * c * c, -2 * c * b);
}

proof fn lemma_two_pow_ge_of(k: nat)
    requires
        k >= 1,
    ensures
        two_pow(k + 2) >= 8,
    decreases k,
{
    if k > 1 {
        lemma_two_pow_ge_of((k - 1) as nat);
    } else {
        assert(two_pow(0) == 1);
        assert(two_pow(1) == 2);
        assert(two_pow(2) == 4);
        assert(two_pow(3) == 8);
    }
}

/// Soundness of the Lucas-Lehmer test: whenever it passes for `p >= 2`, the
/// Mersenne number `2^p - 1` is prime.
pub proof fn lemma_lucas_lehmer_sound(p: nat)
    requires
        p >= 2,
        lucas_lehmer_holds(p),
    ensures
        is_prime(mersenne(p) as int),
{
    if p == 2 {
        assert(two_pow(0) == 1);
        assert(two_pow(1) == 2);
        assert(two_pow(2) == 4);
        assert(mersenne(2) == 3);
        assert forall|d: int| 2 <= d < 3 implies #[trigger] (3int % d) != 0 by {
            assert(d == 2);
        }
    } else {
        let big_m = mersenne(p) as int;
        assert(two_pow(p) == 2 * two_pow((p - 1) as nat));
        crate::bignum::lemma_two_pow_pos((p - 1) as nat);
        assert(big_m % 2 == 1);
        if !is_prime(big_m) {
            lemma_two_pow_ge_of((p - 2) as nat);
            let q = arith::lemma_composite_has_small_prime_factor(big_m);
            if q == 2 {
                assert(big_m % 2 == 0);
            }
            assert(q % 2 != 0);
            lemma_half_power(p, q);
            lemma_order_bound(p, q);
        }
    }
}

/// In `Z[sqrt(-3)]`, `(1 + sqrt(-3))^(3k + 1) = (-8)^k (1 + sqrt(-3))`.
proof fn lemma_cube_root_pow(k: nat)
    ensures
        rpow((1, 1), 3 * k + 1, -3) == (ipow(-8, k), ipow(-8, k)),
    decreases k,
{
    let u = (1int, 1int);
    if k == 0 {
        assert(rpow(u, 0, -3) == (1int, 0int));
        assert(rmul(u, (1, 0), -3) == (1int, 1int));
    } else {
        let j = (k - 1) as nat;
        lemma_cube_root_pow(j);
        let c = ipow(-8, j);
        assert(rpow(u, 3 * k + 1, -3) == rmul(u, rpow(u, 3 * k, -3), -3));
        assert(rpow(u, 3 * k, -3) == rmul(u, rpow(u, (3 * k - 1) as nat, -3), -3));
        assert(rpow(u, (3 * k - 1) as nat, -3) == rmul(u, rpow(u, 3 * j + 1, -3), -3));
        assert(rmul(u, (c, c), -3) == (-2 * c, 2 * c));
        assert(rmul(u, (-2 * c, 2 * c), -3) == (-8 * c, 0int));
        assert(rmul(u, (-8 * c, 0), -3) == (-8 * c, -8 * c));
    }
}

/// For a prime `q = 2m + 1 = 3k + 1`, `(-3)^m = 1` modulo `q`: the
/// Frobenius law on `1 + sqrt(-3)`, whose cube is `-8`.
proof fn lemma_minus_three_residue(q: nat, m: nat, k: nat)
    requires
        is_prime(q as int),
        q == 2 * m + 1,
        q == 3 * k + 1,
    ensures
        ipow(-3, m) % (q as int) == 1int % (q as int),
{
    crate::quadratic::lemma_frobenius((0, 1), q, -3);
    crate::quadratic::lemma_root_pow(m, -3);
    lemma_cube_root_pow(k);
    assert(radd((1, 0), (0, 1)) == (1int, 1int));
}

/// In `Z[sqrt(3)]`, `(1 + sqrt(3))^(2n) = 2^n (2 + sqrt(3))^n`.
proof fn lemma_one_plus_root_square(n: nat)
    ensures
        rpow((1, 1), 2 * n, 3) == (two_pow(n) * w_pow(n).0, two_pow(n) * w_pow(n).1),
    decreases n,
{
    let u = (1int, 1int);
    if n == 0 {
        assert(two_pow(0) == 1);
        assert(w_pow(0) == (1int, 0int));
    } else {
        let j = (n - 1) as nat;
        lemma_one_plus_root_square(j);
        let t = two_pow(j) as int;
        let a = w_pow(j).0;
        let b = w_pow(j).1;
        let x = t * a;
        let y = t * b;
        assert(rpow(u, 2 * n, 3) == rmul(u, rpow(u, (2 * n - 1) as nat, 3), 3));
        assert(rpow(u, (2 * n - 1) as nat, 3) == rmul(u, rpow(u, 2 * j, 3), 3));
        assert(rmul(u, (x, y), 3) == (x + 3 * y, x + y));
        assert(rmul(u, (x + 3 * y, x + y), 3) == (4 * x + 6 * y, 2 * x + 4 * y));
        assert(two_pow(n) == 2 * t);
        assert(w_pow(n) == (2 * a + 3 * b, a + 2 * b));
        assert(4 * x + 6 * y == (2 * t) * (2 * a + 3 * b)) by (nonlinear_arith)
            requires
                x == t * a,
                y == t * b,
        ;
        assert(2 * x + 4 * y == (2 * t) * (a + 2 * b)) by (nonlinear_arith)
            requires
                x == t * a,
                y == t * b,
        ;
    }
}

/// For a prime Mersenne number `q = 2^p - 1` with `p` odd,
/// `2^(2^(p-1)) = 2` modulo `q`: 2 is the square of `2^((p+1)/2)`.
proof fn lemma_two_power_of_half(p: nat, q: nat)
    requires
        p >= 3,
        p % 2 == 1,
        q == mersenne(p),
        is_prime(q as int),
    ensures
        (two_pow(two_pow((p - 1) as nat)) as int) % (q as int) == 2int % (q as int),
{
    let h = ((p + 1) / 2) as nat;
    let x = two_pow(h) as int;
    let qi = q as int;
    let e = two_pow((p - 1) as nat);
    crate::perfect_numbers::lemma_two_pow_add(h, h);
    assert(h + h == p + 1);
    assert(two_pow(p + 1) == 2 * two_pow(p));
    crate::bignum::lemma_two_pow_pos(p);
    assert(two_pow(p) == 2 * e);
    assert(x * x == qi * 2 + 2);
    crate::quadratic::lemma_fermat(two_pow(h), q);
    let y = ipow(x, q);
    assert(ipow(x, q + 1) == x * y);
    lemma_mul_mod_noop_right(x, y, qi);
    lemma_mul_mod_noop_right(x, x, qi);
    lemma_mod_multiples_vanish(2, 2, qi);
    assert(q + 1 == 2 * e);
    crate::quadratic::lemma_ipow_square(x, e);
    crate::quadratic::lemma_ipow_congruent(x * x, 2, e, qi);
    crate::quadratic::lemma_ipow_two(e);
}

/// For a prime Mersenne number `q = 2^p - 1` with `p` odd,
/// `(2 + sqrt(3))^(2^(p-1)) = -1` modulo `q`.
proof fn lemma_half_power_of_prime(p: nat, q: nat)
    requires
        p >= 3,
        p % 2 == 1,
        q == mersenne(p),
        q % 3 == 1,
        is_prime(q as int),
    ensures
        eqv(w_pow(two_pow((p - 1) as nat)), (-1, 0), q as int),
{
    let e = two_pow((p - 1) as nat);
    let qi = q as int;
    crate::bignum::lemma_two_pow_pos(p);
    crate::bignum::lemma_two_pow_pos((p - 2) as nat);
    assert(two_pow(p) == 2 * e);
    assert(e == 2 * two_pow((p - 2) as nat));
    let m = (e - 1) as nat;
    assert(q == 2 * m + 1);
    assert(m % 2 == 1);
    let k = ((q - 1) / 3) as nat;
    assert(q == 3 * k + 1);
    lemma_minus_three_residue(q, m, k);
    crate::quadratic::lemma_ipow_neg(3, m);
    let big_x = ipow(3, m);
    let (w, _) = lemma_eqv_elim((-big_x, 0), (1, 0), qi);
    crate::quadratic::lemma_frobenius((0, 1), q, 3);
    crate::quadratic::lemma_root_pow(m, 3);
    assert(radd((1, 0), (0, 1)) == (1int, 1int));
    let r = rpow((1, 1), q, 3);
    let (s0, t0) = lemma_eqv_elim(r, (1, big_x), qi);
    assert(rpow((1, 1), q + 1, 3) == rmul((1, 1), r, 3));
    assert(rmul((1, 1), r, 3) == (r.0 + 3 * r.1, r.0 + r.1));
    lemma_one_plus_root_square(e);
    assert(q + 1 == 2 * e);
    let t = two_pow(e) as int;
    let a = w_pow(e).0;
    let b = w_pow(e).1;
    lemma_two_power_of_half(p, q);
    let (c, _) = lemma_eqv_elim((t, 0), (2, 0), qi);
    assert(2 * (a + 1) == qi * (s0 + 3 * (t0 - w) - c * a)) by (nonlinear_arith)
        requires
            t * a == r.0 + 3 * r.1,
            r.0 == 1 + qi * s0,
            r.1 == big_x + qi * t0,
            -big_x == 1 + qi * w,
            t == 2 + qi * c,
    ;
    assert(2 * b == qi * (s0 + t0 - w - c * b)) by (nonlinear_arith)
        requires
            t * b == r.0 + r.1,
            r.0 == 1 + qi * s0,
            r.1 == big_x + qi * t0,
            -big_x == 1 + qi * w,
            t == 2 + qi * c,
    ;
    lemma_mod_multiples_basic(s0 + 3 * (t0 - w) - c * a, qi);
    lemma_mod_multiples_basic(s0 + t0 - w - c * b, qi);
    assert(qi * (s0 + 3 * (t0 - w) - c * a) == (s0 + 3 * (t0 - w) - c * a) * qi) by (nonlinear_arith);
    assert(qi * (s0 + t0 - w - c * b) == (s0 + t0 - w - c * b) * qi) by (nonlinear_arith);
    crate::twin_primes::lemma_odd_divides_double(a + 1, qi);
    crate::twin_primes::lemma_odd_divides_double(b, qi);
    lemma_mod_equivalence(a, -1, qi);
    lemma_small_mod(0, q);
}

proof fn lemma_w_pow_nonneg(n: nat)
    ensures
        w_pow(n).0 >= 0,
        w_pow(n).1 >= 0,
    decreases n,
{
    if n > 0 {
        lemma_w_pow_nonneg((n - 1) as nat);
    }
}

/// When `(2 + sqrt(3))^(2^(p-1)) = -1` modulo a prime `2^p - 1`, term
/// `p - 2` of the Lucas-Lehmer sequence is 0.
proof fn lemma_term_vanishes(p: nat)
    requires
        p >= 3,
        is_prime(mersenne(p) as int),
        eqv(w_pow(two_pow((p - 1) as nat)), (-1, 0), mersenne(p) as int),
    ensures
        ll_term((p - 2) as nat, mersenne(p)) == 0,
{
    let big_m = mersenne(p);
    let mi = big_m as int;
    let k = (p - 2) as nat;
    let m0 = two_pow(k);
    assert(two_pow((p - 1) as nat) == 2 * m0);
    lemma_pow_add(m0, m0);
    lemma_norm(m0);
    lemma_w_pow_nonneg(m0);
    let a = w_pow(m0).0;
    let b = w_pow(m0).1;
    assert(w_pow(m0 + m0).0 == a * a + 3 * b * b);
    assert(a * a + 3 * b * b == 2 * (a * a) - 1);
    lemma_mod_equivalence(2 * (a * a) - 1, -1, mi);
    assert(2 * (a * a) - 1 - (-1) == 2 * (a * a));
    crate::bignum::lemma_two_pow_pos(p);
    assert(two_pow(p) == 2 * two_pow((p - 1) as nat));
    assert(mi % 2 == 1);
    crate::twin_primes::lemma_odd_divides_double(a * a, mi);
    assert(a * a >= 0) by (nonlinear_arith)
        requires
            a >= 0,
    ;
    arith::lemma_euclid(mi, a, a);
    arith::lemma_multiple_of_multiple(2, a, mi);
    assert(ll_exact(k) == 2 * a);
    lemma_ll_congruent(k, big_m);
    lemma_mod_equivalence(ll_term(k, big_m), ll_exact(k), mi);
    let prev = ll_term((k - 1) as nat, big_m);
    assert(ll_term(k, big_m) == (prev * prev - 2) % mi);
    lemma_mod_bound(prev * prev - 2, mi);
    lemma_small_mod(ll_term(k, big_m) as nat, big_m);
}

/// `2^(2r) = 1` modulo 3.
proof fn lemma_even_power_mod3(r: nat)
    ensures
        two_pow(2 * r) % 3 == 1,
    decreases r,
{
    if r > 0 {
        let j = (r - 1) as nat;
        lemma_even_power_mod3(j);
        let x = two_pow(2 * j) as int;
        assert(two_pow(2 * r) == 2 * two_pow((2 * r - 1) as nat));
        assert(two_pow((2 * r - 1) as nat) == 2 * two_pow(2 * j));
        lemma_mod_multiples_vanish(x, x, 3);
    }
}

/// Completeness of the Lucas-Lehmer test: whenever the Mersenne number
/// `2^p - 1` is prime, the test passes for `p`.
pub proof fn lemma_lucas_lehmer_complete(p: nat)
    requires
        p >= 2,
        is_prime(mersenne(p) as int),
    ensures
        lucas_lehmer_holds(p),
{
    if p > 2 {
        let q = mersenne(p);
        let r = p / 2;
        lemma_even_power_mod3(r);
        crate::bignum::lemma_two_pow_pos(p);
        if p % 2 == 0 {
            assert(p == 2 * r);
            lemma_two_pow_ge_of((p - 2) as nat);
            assert(q % 3 == 0);
            assert((q as int) % 3 == 0);
            assert(false);
        }
        assert(p == 2 * r + 1);
        assert(two_pow(p) == 2 * two_pow(2 * r));
        lemma_mod_multiples_vanish(two_pow(2 * r) as int, two_pow(2 * r) as int, 3);
        assert(q % 3 == 1);
        lemma_half_power_of_prime(p, q);
        lemma_term_vanishes(p);
    }
}

} // verus!
