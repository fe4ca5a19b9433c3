//! Number-theoretic definitions shared by the whole library, and the lemmas
//! about them that the sieves, the primality tests and the other algorithms
//! rest on.
use vstd::arithmetic::div_mod::*;
use vstd::arithmetic::mul::*;
use vstd::prelude::*;

verus! {

/// `n` is prime: at least 2 and without a divisor strictly between 1 and `n`.
pub open spec fn is_prime(n: int) -> bool {
    n >= 2 && forall|d: int| 2 <= d < n ==> #[trigger] (n % d) != 0
}

/// The primes in `[lo, hi)`, in increasing order.
pub open spec fn primes_in(lo: nat, hi: nat) -> Seq<nat>
    decreases hi,
{
    if hi <= lo {
        Seq::empty()
    } else {
        let k = (hi - 1) as nat;
        if is_prime(k as int) {
            primes_in(lo, k).push(k)
        } else {
            primes_in(lo, k)
        }
    }
}

/// The primes below `n`, in increasing order.
pub open spec fn primes_below(n: nat) -> Seq<nat> {
    primes_in(0, n)
}

/// The values of a sequence of `u64`s, as natural numbers.
pub open spec fn nats_of(s: Seq<u64>) -> Seq<nat> {
    s.map_values(|x: u64| x as nat)
}

/// A sequence of naturals in strictly increasing order.
pub open spec fn strictly_increasing(s: Seq<nat>) -> bool {
    forall|i: int, j: int| 0 <= i < j < s.len() ==> s[i] < s[j]
}

pub proof fn lemma_nats_of_push(s: Seq<u64>, x: u64)
    ensures
        nats_of(s.push(x)) == nats_of(s).push(x as nat),
{
    assert(nats_of(s.push(x)) =~= nats_of(s).push(x as nat));
}

/// Divisibility is transitive.
pub proof fn lemma_divides_trans(d: int, a: int, x: int)
    requires
        d > 0,
        a > 0,
        a % d == 0,
        x % a == 0,
    ensures
        x % d == 0,
{
    lemma_fundamental_div_mod(x, a);
    lemma_fundamental_div_mod(a, d);
    let q1 = x / a;
    let q2 = a / d;
    assert(x == (q2 * q1) * d) by (nonlinear_arith)
        requires
            x == a * q1 + 0,
            a == d * q2 + 0,
    ;
    lemma_mod_multiples_basic(q2 * q1, d);
}

/// A multiple of a multiple of `d` is a multiple of `d`: `(k * x) % d == 0`
/// whenever `x % d == 0`.
pub proof fn lemma_multiple_of_multiple(k: int, x: int, d: int)
    requires
        d > 0,
        x % d == 0,
    ensures
        (k * x) % d == 0,
{
    lemma_mul_mod_noop_right(k, x, d);
    assert(k * 0 == 0);
    lemma_small_mod(0, d as nat);
}

/// The least divisor at least 2 of a number at least 2, searched from `k` on.
pub proof fn lemma_least_divisor(x: int, k: int) -> (d: int)
    requires
        2 <= k <= x,
        forall|j: int| 2 <= j < k ==> #[trigger] (x % j) != 0,
    ensures
        2 <= d <= x,
        x % d == 0,
        forall|j: int| 2 <= j < d ==> #[trigger] (x % j) != 0,
    decreases x - k,
{
    if x % k == 0 {
        k
    } else {
        if k == x {
            lemma_mod_self_0(x);
        }
        lemma_least_divisor(x, k + 1)
    }
}

/// The least divisor at least 2 of a number is prime.
pub proof fn lemma_least_divisor_is_prime(x: int, d: int)
    requires
        2 <= d <= x,
        x % d == 0,
        forall|j: int| 2 <= j < d ==> #[trigger] (x % j) != 0,
    ensures
        is_prime(d),
{
    assert forall|j: int| 2 <= j < d implies #[trigger] (d % j) != 0 by {
        if d % j == 0 {
            lemma_divides_trans(j, d, x);
        }
    }
}

/// A number at least 2 that is not prime has a prime factor whose square
/// does not exceed it.
pub proof fn lemma_composite_has_small_prime_factor(x: int) -> (p: int)
    requires
        x >= 2,
        !is_prime(x),
    ensures
        is_prime(p),
        x % p == 0,
        p * p <= x,
        p < x,
{
    let p = lemma_least_divisor(x, 2);
    lemma_least_divisor_is_prime(x, p);
    let q = x / p;
    lemma_fundamental_div_mod(x, p);
    assert(x == p * q);
    if p == x {
        // x would be prime
        assert(is_prime(x));
    }
    assert(q >= 2) by (nonlinear_arith)
        requires x == p * q, p < x, p >= 2;
    assert(x % q == 0) by {
        lemma_mod_multiples_basic(p, q);
        lemma_mul_is_commutative(p, q);
    }
    assert(q < x) by (nonlinear_arith)
        requires x == p * q, p >= 2, q >= 2;
    // q is a divisor at least 2, so the least one is no larger
    if q < p {
        assert(x % q != 0);
    }
    assert(p * p <= x) by (nonlinear_arith)
        requires x == p * q, p <= q, p >= 2;
    p
}

/// Membership in `primes_in`.
pub proof fn lemma_primes_in_contains(lo: nat, hi: nat, x: nat)
    ensures
        primes_in(lo, hi).contains(x) <==> (lo <= x < hi && is_prime(x as int)),
    decreases hi,
{
    if hi > lo {
        let k = (hi - 1) as nat;
        lemma_primes_in_contains(lo, k, x);
        if is_prime(k as int) {
            let s = primes_in(lo, hi);
            let t = primes_in(lo, k);
            assert(s == t.push(k));
            if s.contains(x) {
                let i = choose|i: int| 0 <= i < s.len() && s[i] == x;
                if i < t.len() {
                    assert(t.contains(x));
                }
            }
            if lo <= x < hi && is_prime(x as int) {
                if x == k {
                    assert(s[t.len() as int] == x);
                } else {
                    let i = choose|i: int| 0 <= i < t.len() && t[i] == x;
                    assert(s[i] == x);
                }
            }
        }
    }
}

/// Every element of `primes_in(lo, hi)` is a prime in `[lo, hi)`, and the
/// sequence is strictly increasing.
pub proof fn lemma_primes_in_props(lo: nat, hi: nat)
    ensures
        strictly_increasing(primes_in(lo, hi)),
        forall|i: int|
            0 <= i < primes_in(lo, hi).len() ==> lo <= #[trigger] primes_in(lo, hi)[i] < hi
                && is_prime(primes_in(lo, hi)[i] as int),
    decreases hi,
{
    if hi > lo {
        lemma_primes_in_props(lo, (hi - 1) as nat);
    }
}

/// Without a prime in `[m, n)`, the primes in `[lo, n)` are those in `[lo, m)`.
pub proof fn lemma_primes_in_gap(lo: nat, m: nat, n: nat)
    requires
        m <= n,
        forall|x: int| m <= x < n ==> !#[trigger] is_prime(x),
    ensures
        primes_in(lo, n) == primes_in(lo, m),
    decreases n - m,
{
    if m < n {
        lemma_primes_in_gap(lo, m, (n - 1) as nat);
    }
}

/// Between two neighbours of `primes_in(lo, hi)`, after its last element,
/// and before its first element, there is no prime within `[lo, hi)`.
pub proof fn lemma_primes_in_gaps(lo: nat, hi: nat, x: int)
    requires
        lo <= x < hi,
        is_prime(x),
    ensures
        ({
            let s = primes_in(lo, hi);
            &&& s.len() > 0
            &&& s[0] <= x <= s[s.len() - 1]
            &&& forall|i: int| 0 <= i < s.len() - 1 ==> !(s[i] < x < #[trigger] s[i + 1])
        }),
{
    let s = primes_in(lo, hi);
    lemma_primes_in_contains(lo, hi, x as nat);
    lemma_primes_in_props(lo, hi);
    let j = choose|j: int| 0 <= j < s.len() && s[j] == x;
    assert forall|i: int| 0 <= i < s.len() - 1 implies !(s[i] < x < #[trigger] s[i + 1]) by {
        if s[i] < x < s[i + 1] {
            if j <= i {
                assert(s[j] <= s[i]);
            } else {
                assert(s[i + 1] <= s[j]);
            }
        }
    }
    assert(s[0] <= s[j]);
    assert(s[j] <= s[s.len() - 1]);
}

/// The primes in `[lo, hi)` are those in `[lo, mid)` followed by those in `[mid, hi)`.
pub proof fn lemma_primes_in_split(lo: nat, mid: nat, hi: nat)
    requires
        lo <= mid <= hi,
    ensures
        primes_in(lo, hi) == primes_in(lo, mid) + primes_in(mid, hi),
    decreases hi,
{
    if hi > mid {
        lemma_primes_in_split(lo, mid, (hi - 1) as nat);
        assert(primes_in(lo, hi) =~= primes_in(lo, mid) + primes_in(mid, hi));
    } else {
        assert(primes_in(mid, hi) =~= Seq::empty());
        assert(primes_in(lo, hi) =~= primes_in(lo, mid) + primes_in(mid, hi));
    }
}

/// If a prime `p` divides `a * b` with `0 < a < p`, then `p` divides `b`:
/// `p % a` is a smaller such factor.
proof fn lemma_euclid_below(p: int, a: int, b: int)
    requires
        is_prime(p),
        0 < a < p,
        b >= 0,
        (a * b) % p == 0,
    ensures
        b % p == 0,
    decreases a,
{
    if a > 1 {
        let k = p / a;
        let r = p % a;
        lemma_fundamental_div_mod(p, a);
        assert(p % a != 0);
        lemma_fundamental_div_mod(a * b, p);
        let t = (a * b) / p;
        assert(r * b == (b - k * t) * p) by (nonlinear_arith)
            requires
                p == a * k + r,
                a * b == p * t + 0,
        ;
        lemma_mod_multiples_basic(b - k * t, p);
        assert(0 <= r * b) by (nonlinear_arith)
            requires
                0 <= r,
                0 <= b,
        ;
        lemma_euclid_below(p, r, b);
    } else {
        assert(a * b == b) by (nonlinear_arith)
            requires
                a == 1,
        ;
    }
}

/// Euclid's lemma: a prime that divides a product divides one of its factors.
pub proof fn lemma_euclid(p: int, a: int, b: int)
    requires
        is_prime(p),
        a >= 0,
        b >= 0,
        (a * b) % p == 0,
    ensures
        a % p == 0 || b % p == 0,
{
    if a % p != 0 {
        lemma_mul_mod_noop_left(a, b, p);
        lemma_euclid_below(p, a % p, b);
    }
}

/// Integer square root: the largest `r` with `r * r <= n`.
pub fn isqrt(n: u64) -> (r: u64)
    ensures
        r * r <= n < (r + 1) * (r + 1),
{
    let mut lo: u64 = 0;
    let mut hi: u64 = 4294967296;
    assert(n < hi * hi);
    while hi - lo > 1
        invariant
            lo < hi <= 4294967296,
            lo * lo <= n < hi * hi,
        decreases hi - lo,
    {
        let mid = lo + (hi - lo) / 2;
        assert(mid * mid <= 4294967295 * 4294967295) by (nonlinear_arith)
            requires mid < 4294967296;
        if mid * mid <= n {
            lo = mid;
        } else {
            hi = mid;
        }
    }
    lo
}

} // verus!
