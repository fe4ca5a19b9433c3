//! Numbers as products of prime powers over the primes up to a bound:
//! every `n >= 1` is the product of `p^valuation(p, n)`, and `n!` is the
//! product of `p^legendre(n, p)` (Legendre's formula).
use crate::arith::{self, is_prime, primes_below, primes_in, strictly_increasing};
use crate::bignum::nat_pow;
use vstd::arithmetic::div_mod::*;
use vstd::prelude::*;

verus! {

/// `n!`.
pub open spec fn factorial(n: nat) -> nat
    decreases n,
{
    if n == 0 {
        1
    } else {
        n * factorial((n - 1) as nat)
    }
}

/// How many times `p` divides `x`: 0 when `p` does not divide it (and for
/// `x == 0` or `p < 2`).
pub open spec fn valuation(p: nat, x: nat) -> nat
    decreases x,
{
    if p < 2 || x == 0 || x % p != 0 {
        0
    } else {
        proof {
            lemma_div_decreases(x as int, p as int);
        }
        1 + valuation(p, x / p)
    }
}

/// Legendre's count `q / p + q / p^2 + ...` of the factors `p` in `q!`.
pub open spec fn legendre(q: nat, p: nat) -> nat
    decreases q,
{
    if p < 2 || q < p {
        0
    } else {
        proof {
            lemma_div_decreases(q as int, p as int);
        }
        q / p + legendre(q / p, p)
    }
}

/// The product of `p^f(p)` over the entries `p` of `s`.
pub open spec fn prod_pow(s: Seq<nat>, f: spec_fn(nat) -> nat) -> nat
    decreases s.len(),
{
    if s.len() == 0 {
        1
    } else {
        nat_pow(s[0], f(s[0])) * prod_pow(s.drop_first(), f)
    }
}

/// `b^(x + y) = b^x * b^y`.
pub proof fn lemma_nat_pow_add(b: nat, x: nat, y: nat)
    ensures
        nat_pow(b, x + y) == nat_pow(b, x) * nat_pow(b, y),
    decreases x,
{
    if x > 0 {
        lemma_nat_pow_add(b, (x - 1) as nat, y);
        assert(nat_pow(b, x + y) == b * nat_pow(b, (x - 1 + y) as nat));
        assert(b * (nat_pow(b, (x - 1) as nat) * nat_pow(b, y)) == (b * nat_pow(b, (x - 1) as nat))
            * nat_pow(b, y)) by (nonlinear_arith);
    } else {
        assert(nat_pow(b, 0) == 1);
        assert(1 * nat_pow(b, y) == nat_pow(b, y));
    }
}

/// A product over a concatenation is the product of the two products.
pub proof fn lemma_prod_pow_concat(a: Seq<nat>, b: Seq<nat>, f: spec_fn(nat) -> nat)
    ensures
        prod_pow(a + b, f) == prod_pow(a, f) * prod_pow(b, f),
    decreases a.len(),
{
    if a.len() == 0 {
        assert(a + b =~= b);
        assert(prod_pow(a, f) == 1);
        assert(1 * prod_pow(b, f) == prod_pow(b, f));
    } else {
        lemma_prod_pow_concat(a.drop_first(), b, f);
        assert((a + b).drop_first() =~= a.drop_first() + b);
        assert((a + b)[0] == a[0]);
        let x = nat_pow(a[0], f(a[0]));
        assert(prod_pow(a + b, f) == x * prod_pow((a + b).drop_first(), f));
        assert(prod_pow(a, f) == x * prod_pow(a.drop_first(), f));
        assert(x * (prod_pow(a.drop_first(), f) * prod_pow(b, f)) == (x * prod_pow(
            a.drop_first(),
            f,
        )) * prod_pow(b, f)) by (nonlinear_arith);
    }
}

/// With every exponent zero the product is 1.
pub proof fn lemma_prod_pow_one(s: Seq<nat>, f: spec_fn(nat) -> nat)
    requires
        forall|i: int| 0 <= i < s.len() ==> f(#[trigger] s[i]) == 0,
    ensures
        prod_pow(s, f) == 1,
    decreases s.len(),
{
    if s.len() > 0 {
        assert forall|i: int| 0 <= i < s.drop_first().len() implies f(
            #[trigger] s.drop_first()[i],
        ) == 0 by {
            assert(s.drop_first()[i] == s[i + 1]);
        }
        lemma_prod_pow_one(s.drop_first(), f);
        assert(f(s[0]) == 0);
        assert(nat_pow(s[0], 0) == 1);
        assert(prod_pow(s, f) == nat_pow(s[0], f(s[0])) * prod_pow(s.drop_first(), f));
        assert(1nat * 1nat == 1nat);
    }
}

/// Adding exponents multiplies products.
pub proof fn lemma_prod_pow_mul(
    s: Seq<nat>,
    f: spec_fn(nat) -> nat,
    g: spec_fn(nat) -> nat,
    h: spec_fn(nat) -> nat,
)
    requires
        forall|i: int| 0 <= i < s.len() ==> h(#[trigger] s[i]) == f(s[i]) + g(s[i]),
    ensures
        prod_pow(s, h) == prod_pow(s, f) * prod_pow(s, g),
    decreases s.len(),
{
    if s.len() > 0 {
        let t = s.drop_first();
        assert forall|i: int| 0 <= i < t.len() implies h(#[trigger] t[i]) == f(t[i]) + g(t[i]) by {
            assert(t[i] == s[i + 1]);
        }
        lemma_prod_pow_mul(t, f, g, h);
        let p = s[0];
        assert(h(p) == f(p) + g(p));
        lemma_nat_pow_add(p, f(p), g(p));
        let x = nat_pow(p, f(p));
        let y = nat_pow(p, g(p));
        let pf = prod_pow(t, f);
        let pg = prod_pow(t, g);
        assert(prod_pow(s, h) == nat_pow(p, h(p)) * prod_pow(t, h));
        assert(prod_pow(s, f) == x * pf);
        assert(prod_pow(s, g) == y * pg);
        assert((x * y) * (pf * pg) == (x * pf) * (y * pg)) by (nonlinear_arith);
    } else {
        assert(1nat * 1nat == 1nat);
    }
}

/// Over a list without repeats that holds `q`, the exponents that are 1 at
/// `q` and 0 elsewhere give `q`.
pub proof fn lemma_prod_pow_single(s: Seq<nat>, q: nat, f: spec_fn(nat) -> nat)
    requires
        strictly_increasing(s),
        s.contains(q),
        forall|i: int| 0 <= i < s.len() ==> f(#[trigger] s[i]) == if s[i] == q {
            1nat
        } else {
            0nat
        },
    ensures
        prod_pow(s, f) == q,
    decreases s.len(),
{
    let t = s.drop_first();
    assert forall|i: int| 0 <= i < t.len() implies f(#[trigger] t[i]) == if t[i] == q {
        1nat
    } else {
        0nat
    } by {
        assert(t[i] == s[i + 1]);
    }
    if s[0] == q {
        assert forall|i: int| 0 <= i < t.len() implies f(#[trigger] t[i]) == 0 by {
            assert(t[i] == s[i + 1]);
            assert(s[0] < s[i + 1]);
        }
        lemma_prod_pow_one(t, f);
        assert(nat_pow(q, 0) == 1);
        assert(nat_pow(q, 1) == q * nat_pow(q, 0));
        assert(q * 1 == q);
        assert(nat_pow(q, 1) == q);
    } else {
        let j = choose|j: int| 0 <= j < s.len() && s[j] == q;
        assert(j > 0);
        assert(t[j - 1] == q);
        assert forall|a: int, b: int| 0 <= a < b < t.len() implies t[a] < t[b] by {
            assert(t[a] == s[a + 1]);
            assert(t[b] == s[b + 1]);
        }
        lemma_prod_pow_single(t, q, f);
        assert(f(s[0]) == 0);
        assert(nat_pow(s[0], 0) == 1);
    }
}

/// Widening the primes from those up to `a` to those up to `b` leaves the
/// product alone when the new primes have exponent 0.
pub proof fn lemma_prod_pow_primes_widen(a: nat, b: nat, f: spec_fn(nat) -> nat)
    requires
        a <= b,
        forall|p: nat| a < p <= b && is_prime(p as int) ==> #[trigger] f(p) == 0,
    ensures
        prod_pow(primes_below(a + 1), f) == prod_pow(primes_below(b + 1), f),
{
    arith::lemma_primes_in_split(0, a + 1, b + 1);
    lemma_prod_pow_concat(primes_in(0, a + 1), primes_in(a + 1, b + 1), f);
    arith::lemma_primes_in_props(a + 1, b + 1);
    let t = primes_in(a + 1, b + 1);
    assert forall|i: int| 0 <= i < t.len() implies f(#[trigger] t[i]) == 0 by {
        assert(a < t[i] <= b && is_prime(t[i] as int));
    }
    lemma_prod_pow_one(t, f);
    assert(prod_pow(primes_below(a + 1), f) * 1 == prod_pow(primes_below(a + 1), f));
}

/// `q^1` divides `q * m` once more than it divides `m`.
pub proof fn lemma_valuation_same_prime(q: nat, m: nat)
    requires
        q >= 2,
        m >= 1,
    ensures
        valuation(q, q * m) == 1 + valuation(q, m),
{
    assert(q * m >= 1) by (nonlinear_arith)
        requires
            q >= 2,
            m >= 1,
    ;
    lemma_mod_multiples_basic(m as int, q as int);
    assert((q * m) % q == 0) by {
        assert(q * m == m * q) by (nonlinear_arith);
    }
    lemma_div_multiples_vanish(m as int, q as int);
}

/// A prime `q` other than `p` does not change how often `p` divides.
pub proof fn lemma_valuation_other_prime(p: nat, q: nat, m: nat)
    requires
        is_prime(p as int),
        is_prime(q as int),
        p != q,
        m >= 1,
    ensures
        valuation(p, q * m) == valuation(p, m),
    decreases m,
{
    assert(q * m >= 1) by (nonlinear_arith)
        requires
            q >= 2,
            m >= 1,
    ;
    if m % p == 0 {
        lemma_fundamental_div_mod(m as int, p as int);
        let t = m / p;
        assert(t >= 1) by (nonlinear_arith)
            requires
                m == p * t + 0,
                m >= 1,
        ;
        assert(q * m == (q * t) * p) by (nonlinear_arith)
            requires
                m == p * t + 0,
        ;
        lemma_mod_multiples_basic((q * t) as int, p as int);
        lemma_div_multiples_vanish((q * t) as int, p as int);
        assert((q * m) / p == q * t) by {
            assert(p * (q * t) == (q * t) * p) by (nonlinear_arith);
        }
        lemma_div_decreases(m as int, p as int);
        lemma_valuation_other_prime(p, q, t);
    } else {
        if (q * m) % p == 0 {
            arith::lemma_euclid(p as int, q as int, m as int);
            if q > p {
                assert(q % p != 0);
            } else {
                lemma_small_mod(q, p);
            }
        }
    }
}

/// A number `x >= 1` below `p` is not divisible by `p`.
pub proof fn lemma_valuation_below(p: nat, x: nat)
    requires
        1 <= x < p,
    ensures
        valuation(p, x) == 0,
{
    lemma_small_mod(x, p);
}

/// Every `n >= 1` is the product of `p^valuation(p, n)` over the primes up
/// to `n`.
pub proof fn lemma_factorization(n: nat)
    requires
        n >= 1,
    ensures
        prod_pow(primes_below(n + 1), |p: nat| valuation(p, n)) == n,
    decreases n,
{
    let vn = |p: nat| valuation(p, n);
    if n == 1 {
        assert(!is_prime(0));
        assert(!is_prime(1));
        assert(primes_below(0) =~= Seq::<nat>::empty());
        assert(primes_below(1) =~= Seq::<nat>::empty());
        assert(primes_below(2) =~= Seq::<nat>::empty());
    } else {
        let q = arith::lemma_least_divisor(n as int, 2) as nat;
        arith::lemma_least_divisor_is_prime(n as int, q as int);
        lemma_fundamental_div_mod(n as int, q as int);
        let m = n / q;
        assert(n == q * m);
        assert(m >= 1) by (nonlinear_arith)
            requires
                n == q * m,
                n >= 1,
        ;
        assert(m < n) by (nonlinear_arith)
            requires
                n == q * m,
                q >= 2,
                m >= 1,
        ;
        lemma_factorization(m);
        let vm = |p: nat| valuation(p, m);
        let ind = |p: nat| if p == q {
            1nat
        } else {
            0nat
        };
        let s = primes_below(n + 1);
        arith::lemma_primes_in_props(0, n + 1);
        assert forall|i: int| 0 <= i < s.len() implies vn(#[trigger] s[i]) == vm(s[i]) + ind(
            s[i],
        ) by {
            let p = s[i];
            assert(is_prime(p as int));
            if p == q {
                lemma_valuation_same_prime(q, m);
            } else {
                lemma_valuation_other_prime(p, q, m);
            }
        }
        lemma_prod_pow_mul(s, vm, ind, vn);
        assert forall|p: nat| m < p <= n && is_prime(p as int) implies #[trigger] vm(p) == 0 by {
            lemma_valuation_below(p, m);
        }
        lemma_prod_pow_primes_widen(m, n, vm);
        arith::lemma_primes_in_contains(0, n + 1, q);
        assert forall|i: int| 0 <= i < s.len() implies ind(#[trigger] s[i]) == if s[i] == q {
            1nat
        } else {
            0nat
        } by {}
        lemma_prod_pow_single(s, q, ind);
        assert(m * q == n) by (nonlinear_arith)
            requires
                n == q * m,
        ;
    }
}

/// Legendre's count grows from `(n - 1)!` to `n!` by how often `p`
/// divides `n`.
pub proof fn lemma_legendre_step(n: nat, p: nat)
    requires
        p >= 2,
        n >= 1,
    ensures
        legendre(n, p) == legendre((n - 1) as nat, p) + valuation(p, n),
    decreases n,
{
    lemma_fundamental_div_mod(n as int, p as int);
    lemma_fundamental_div_mod((n - 1) as int, p as int);
    let k = n / p;
    if n % p == 0 {
        assert(k >= 1) by (nonlinear_arith)
            requires
                n == p * k + 0,
                n >= 1,
        ;
        assert((n - 1) as int == p * (k - 1) + (p - 1)) by (nonlinear_arith)
            requires
                n == p * k + 0,
        ;
        lemma_fundamental_div_mod_converse_div((n - 1) as int, p as int, k - 1, p - 1);
        assert((n - 1) as int / (p as int) == k - 1) by {
            assert(((k - 1) * p + (p - 1)) == p * (k - 1) + (p - 1)) by (nonlinear_arith);
        }
        lemma_div_decreases(n as int, p as int);
        if k == 1 {
            assert(n == p) by (nonlinear_arith)
                requires
                    n == p * k + 0,
                    k == 1,
            ;
            assert(legendre(1, p) == 0);
            assert(valuation(p, 1) == 0) by {
                lemma_small_mod(1, p);
            }
            lemma_mod_self_0(p as int);
            lemma_div_multiples_vanish(1, p as int);
            assert(p / p == 1) by {
                assert(p * 1 == p);
            }
        } else {
            lemma_legendre_step(k, p);
            assert(n - 1 >= p) by (nonlinear_arith)
                requires
                    n == p * k + 0,
                    k >= 2,
                    p >= 2,
            ;
        }
    } else {
        if n >= p {
            let r: int = (n % p) as int;
            let ki: int = k as int;
            let pi: int = p as int;
            let ni: int = n as int;
            assert(ni - 1 == ki * pi + (r - 1)) by (nonlinear_arith)
                requires
                    ni == pi * ki + r,
            ;
            lemma_fundamental_div_mod_converse_div((n - 1) as int, p as int, k as int, n % p - 1);
            assert((n - 1) as int / (p as int) == k) by {
                assert((k * p + (n % p - 1)) == p * k + (n % p - 1)) by (nonlinear_arith);
            }
            assert(n - 1 >= p) by {
                if n == p {
                    lemma_mod_self_0(p as int);
                }
            }
        }
    }
}

/// Legendre's formula: `n!` is the product of `p^legendre(n, p)` over the
/// primes up to `n`.
pub proof fn lemma_factorial_prime_powers(n: nat)
    ensures
        factorial(n) == prod_pow(primes_below(n + 1), |p: nat| legendre(n, p)),
    decreases n,
{
    if n == 0 {
        assert(!is_prime(0));
        assert(primes_below(0) =~= Seq::<nat>::empty());
        assert(primes_below(1) =~= Seq::<nat>::empty());
    } else {
        let m = (n - 1) as nat;
        lemma_factorial_prime_powers(m);
        let ln = |p: nat| legendre(n, p);
        let lm = |p: nat| legendre(m, p);
        let vn = |p: nat| valuation(p, n);
        let s = primes_below(n + 1);
        arith::lemma_primes_in_props(0, n + 1);
        assert forall|i: int| 0 <= i < s.len() implies ln(#[trigger] s[i]) == lm(s[i]) + vn(
            s[i],
        ) by {
            lemma_legendre_step(n, s[i]);
        }
        lemma_prod_pow_mul(s, lm, vn, ln);
        assert forall|p: nat| m < p <= n && is_prime(p as int) implies #[trigger] lm(p) == 0 by {}
        lemma_prod_pow_primes_widen(m, n, lm);
        lemma_factorization(n);
        assert(factorial(m) * n == n * factorial(m)) by (nonlinear_arith);
    }
}

} // verus!
