//! Goldbach pairs: every way of writing each even number up to a limit as a
//! sum of two primes, with primality read from a packed sieve of the odd
//! numbers.
use crate::arith;
use crate::twin_primes;
use vstd::arithmetic::div_mod::*;
use vstd::prelude::*;

verus! {

/// Bit `i` of a packed bitset of 64-bit words.
pub open spec fn word_bit(words: Seq<u64>, i: int) -> bool {
    (words[i / 64] >> ((i % 64) as u64)) & 1u64 != 0
}

proof fn lemma_u64_set_bit(w: u64, k: u64, m: u64)
    by (bit_vector)
    requires
        k < 64,
        m < 64,
    ensures
        (((w | (1u64 << k)) >> m) & 1u64 != 0) == (((w >> m) & 1u64 != 0) || k == m),
{
}

proof fn lemma_u64_zero_bit(m: u64)
    by (bit_vector)
    requires
        m < 64,
    ensures
        ((0u64 >> m) & 1u64) == 0,
{
}

/// What the sieve says of `n`: 2 is prime, 0, 1 and the other even numbers
/// are not, and an odd `n >= 3` is prime when its bit `(n - 3) / 2` is clear.
pub open spec fn sieve_says_prime(sieve: Seq<u64>, n: int) -> bool {
    if n < 2 {
        false
    } else if n == 2 {
        true
    } else if n % 2 == 0 {
        false
    } else {
        !word_bit(sieve, (n - 3) / 2)
    }
}

/// The sieve has a bit for every odd number from 3 to `limit`.
pub open spec fn sieve_covers(sieve: Seq<u64>, limit: int) -> bool {
    limit < 3 || (limit - 3) / 2 < 64 * sieve.len()
}

/// How many odd numbers lie in `[3, limit]`.
pub open spec fn odd_count(limit: nat) -> nat {
    if limit < 3 {
        0
    } else {
        ((limit - 3) / 2 + 1) as nat
    }
}

/// The sieve for `limit`: one bit per odd number `2i + 3` in `[3, limit]`,
/// set exactly for the composite ones, in as many words as that takes.
pub open spec fn sieve_for(sieve: Seq<u64>, limit: nat) -> bool {
    &&& sieve.len() == (odd_count(limit) + 63) / 64
    &&& forall|i: int|
        0 <= i < 64 * sieve.len() ==> #[trigger] word_bit(sieve, i) == (i < odd_count(limit)
            && !arith::is_prime(2 * i + 3))
}

/// `x` has an odd divisor `d` with `3 <= d < bound` and `d * d <= x`.
pub open spec fn odd_factor_below(x: int, bound: int) -> bool {
    exists|d: int| 3 <= d < bound && d % 2 == 1 && d * d <= x && #[trigger] (x % d) == 0
}

proof fn lemma_odd_factor_final(x: int, p: int)
    requires
        3 <= x,
        x % 2 == 1,
        3 <= p,
        x < p * p,
    ensures
        odd_factor_below(x, p) <==> !arith::is_prime(x),
{
    if odd_factor_below(x, p) {
        let d = choose|d: int| 3 <= d < p && d % 2 == 1 && d * d <= x && #[trigger] (x % d) == 0;
        assert(d < x) by (nonlinear_arith)
            requires d * d <= x, 3 <= d;
    }
    if !arith::is_prime(x) {
        let q = arith::lemma_composite_has_small_prime_factor(x);
        assert(q < p) by (nonlinear_arith)
            requires q * q <= x, x < p * p, 3 <= p, 2 <= q;
        if q % 2 == 0 {
            arith::lemma_divides_trans(2, q, x);
        }
        assert(q != 2);
        assert(3 <= q < p && q % 2 == 1 && q * q <= x && x % q == 0);
    }
}

proof fn lemma_odd_factor_composite_step(x: int, p: int)
    requires
        3 <= p,
        p * p <= x,
        x % p == 0,
        odd_factor_below(p, p),
    ensures
        odd_factor_below(x, p),
{
    let d = choose|d: int| 3 <= d < p && d % 2 == 1 && d * d <= p && #[trigger] (p % d) == 0;
    arith::lemma_divides_trans(d, p, x);
    assert(d * d <= x) by (nonlinear_arith)
        requires d * d <= p, 3 <= p, p * p <= x;
}

proof fn lemma_odd_square(p: int)
    requires
        p % 2 == 1,
        p >= 0,
    ensures
        (p * p) % 2 == 1,
{
    lemma_fundamental_div_mod(p, 2);
    let h = p / 2;
    assert(p * p == 2 * (2 * h * h + 2 * h) + 1) by (nonlinear_arith)
        requires p == 2 * h + 1;
    lemma_mod_multiples_vanish(2 * h * h + 2 * h, 1, 2);
}

/// For odd `x`, `p`, with `x >= p * p`: `p` divides `x` exactly when `x - p * p`
/// is a multiple of `2p`.
proof fn lemma_odd_multiple_stride(x: int, p: int)
    requires
        3 <= p,
        p % 2 == 1,
        x % 2 == 1,
        p * p <= x,
    ensures
        (x % p == 0) <==> ((x - p * p) % (2 * p) == 0),
{
    let y = x - p * p;
    assert((p * p) % 2 == 1) by {
        lemma_fundamental_div_mod(p, 2);
        let h = p / 2;
        assert(p * p == 2 * (2 * h * h + 2 * h) + 1) by (nonlinear_arith)
            requires p == 2 * h + 1;
        lemma_mod_multiples_vanish(2 * h * h + 2 * h, 1, 2);
    }
    assert(y % 2 == 0) by {
        lemma_sub_mod_noop(x, p * p, 2);
    }
    lemma_fundamental_div_mod(y, 2);
    let z = y / 2;
    assert(y == 2 * z);
    assert((p * p) % p == 0) by {
        lemma_mod_multiples_basic(p, p);
    }
    if x % p == 0 {
        assert((2 * z) % p == 0) by {
            lemma_sub_mod_noop(x, p * p, p);
            lemma_small_mod(0, p as nat);
        }
        twin_primes::lemma_odd_divides_double(z, p);
        lemma_fundamental_div_mod(z, p);
        let k = z / p;
        assert(y == k * (2 * p)) by (nonlinear_arith)
            requires y == 2 * z, z == p * k + 0;
        lemma_mod_multiples_basic(k, 2 * p);
    }
    if y % (2 * p) == 0 {
        lemma_fundamental_div_mod(y, 2 * p);
        let k = y / (2 * p);
        assert(x == (2 * k + p) * p) by (nonlinear_arith)
            requires y == (2 * p) * k + 0, y == x - p * p;
        lemma_mod_multiples_basic(2 * k + p, p);
    }
}

/// Build a packed bitset covering the odd numbers `3..=limit`: bit `i`
/// stands for `2i + 3` and is set exactly when that number is composite.
pub fn build_sieve(limit: u64) -> (sieve: Vec<u64>)
    requires
        limit < usize::MAX,
    ensures
        sieve_for(sieve@, limit as nat),
{
    if limit < 3 {
        let empty: Vec<u64> = Vec::new();
        proof {
            assert(odd_count(limit as nat) == 0);
        }
        return empty;
    }
    let count = ((limit - 3) / 2 + 1) as usize;
    let words: usize = (count + 63) / 64;
    let mut sieve: Vec<u64> = vec![0u64; words];
    proof {
        assert forall|i: int| 0 <= i < 64 * words implies !#[trigger] word_bit(sieve@, i) by {
            lemma_fundamental_div_mod(i, 64);
            lemma_u64_zero_bit((i % 64) as u64);
        }
    }
    let mut p: u64 = 3;
    while p <= limit / p
        invariant
            3 <= limit < usize::MAX,
            count == odd_count(limit as nat),
            words == (count + 63) / 64,
            sieve.len() == words,
            3 <= p,
            p % 2 == 1,
            (p - 2) * (p - 2) <= limit,
            forall|i: int|
                0 <= i < 64 * words ==> #[trigger] word_bit(sieve@, i) == (i < count
                    && odd_factor_below(2 * i + 3, p as int)),
        decreases limit - p,
    {
        assert(p * p <= limit) by (nonlinear_arith)
            requires p <= limit / p, p >= 3;
        assert(p + 2 <= limit) by (nonlinear_arith)
            requires p * p <= limit, p >= 3;
        let pi = ((p - 3) / 2) as usize;
        assert(pi < count);
        assert(2 * pi + 3 == p);
        let ghost before = sieve@;
        if (sieve[pi / 64] >> ((pi % 64) as u64)) & 1 == 0 {
            proof {
                lemma_fundamental_div_mod(pi as int, 64);
                assert(!word_bit(before, pi as int));
                assert(!odd_factor_below(p as int, p as int));
            }
            proof {
                lemma_odd_square(p as int);
                assert(2 * p <= limit) by (nonlinear_arith)
                    requires p * p <= limit, p >= 3;
                assert(9 <= p * p) by (nonlinear_arith)
                    requires p >= 3;
                lemma_mod_self_0(2 * p as int);
                assert((p * p - p * p) % (2 * p as int) == 0) by {
                    lemma_small_mod(0, 2 * p as nat);
                }
            }
            let mut m: u64 = p * p;
            while m <= limit
                invariant
                    3 <= limit < usize::MAX,
                    count == odd_count(limit as nat),
                    words == (count + 63) / 64,
                    sieve.len() == words,
                    3 <= p,
                    p % 2 == 1,
                    p * p <= limit,
                    9 <= p * p <= m,
                    2 * p <= limit,
                    m <= limit + 1,
                    m <= limit ==> m % 2 == 1 && (m - p * p) % (2 * p as int) == 0,
                    forall|i: int|
                        0 <= i < 64 * words ==> #[trigger] word_bit(sieve@, i) == (i < count && (
                        odd_factor_below(2 * i + 3, p as int) || (p * p <= 2 * i + 3 < m && (2 * i
                            + 3 - p * p) % (2 * p as int) == 0))),
                decreases limit + 1 - m,
            {
                let mi = ((m - 3) / 2) as usize;
                assert(2 * mi + 3 == m);
                let wi = mi / 64;
                let sh = (mi % 64) as u64;
                let ghost prev = sieve@;
                let w = sieve[wi];
                sieve.set(wi, w | (1u64 << sh));
                let next = if limit - m < 2 * p {
                    limit + 1
                } else {
                    m + 2 * p
                };
                proof {
                    assert forall|i: int| 0 <= i < 64 * words implies #[trigger] word_bit(
                        sieve@,
                        i,
                    ) == (i < count && (odd_factor_below(2 * i + 3, p as int) || (p * p <= 2 * i
                        + 3 < next && (2 * i + 3 - p * p) % (2 * p as int) == 0))) by {
                        lemma_fundamental_div_mod(i, 64);
                        lemma_fundamental_div_mod(mi as int, 64);
                        if i / 64 == wi {
                            lemma_u64_set_bit(w, sh, (i % 64) as u64);
                            assert((((i % 64) as u64) == sh) == (i == mi));
                            assert(word_bit(sieve@, i) == (word_bit(prev, i) || i == mi));
                        } else {
                            assert(sieve@[i / 64] == prev[i / 64]);
                            assert(word_bit(sieve@, i) == word_bit(prev, i));
                            assert(i != mi);
                        }
                        let x = 2 * i + 3;
                        assert(word_bit(prev, i) == (i < count && (odd_factor_below(x, p as int)
                            || (p * p <= x < m && (x - p * p) % (2 * p as int) == 0))));
                        if i == mi {
                            assert(x == m);
                            assert(mi < count);
                        }
                        if m < x < next && (x - p * p) % (2 * p as int) == 0 {
                            lemma_fundamental_div_mod(x - p * p, 2 * p as int);
                            lemma_fundamental_div_mod(m - p * p, 2 * p as int);
                            let a = (x - p * p) / (2 * p as int);
                            let c = (m - p * p) / (2 * p as int);
                            assert(false) by (nonlinear_arith)
                                requires
                                    x - p * p == (2 * p) * a + 0,
                                    m - p * p == (2 * p) * c + 0,
                                    m < x < m + 2 * p,
                                    p > 0,
                            ;
                        }
                        if m < x <= limit && next == limit + 1 && (x - p * p) % (2 * p as int) == 0 {
                            lemma_fundamental_div_mod(x - p * p, 2 * p as int);
                            lemma_fundamental_div_mod(m - p * p, 2 * p as int);
                            let a = (x - p * p) / (2 * p as int);
                            let c = (m - p * p) / (2 * p as int);
                            assert(false) by (nonlinear_arith)
                                requires
                                    x - p * p == (2 * p) * a + 0,
                                    m - p * p == (2 * p) * c + 0,
                                    m < x < m + 2 * p,
                                    p > 0,
                            ;
                        }
                    }
                    if next == m + 2 * p {
                        lemma_mod_add_multiples_vanish(m - p * p, 2 * p as int);
                        lemma_mod_adds(m as int, 2 * p as int, 2);
                        lemma_mod_multiples_basic(p as int, 2);
                    }
                }
                m = next;
            }
            proof {
                assert forall|i: int| 0 <= i < 64 * words implies #[trigger] word_bit(sieve@, i)
                    == (i < count && odd_factor_below(2 * i + 3, p + 2)) by {
                    let x = 2 * i + 3;
                    if i < count {
                        assert(x <= limit);
                        if p * p <= x {
                            lemma_mod_adds(2 * i, 3, 2);
                            lemma_mod_multiples_basic(i, 2);
                            lemma_odd_multiple_stride(x, p as int);
                        }
                        if odd_factor_below(x, p + 2) && !odd_factor_below(x, p as int) {
                            let d = choose|d: int|
                                3 <= d < p + 2 && d % 2 == 1 && d * d <= x && #[trigger] (x % d)
                                    == 0;
                            if d == p + 1 {
                                lemma_mod_adds(p as int, 1, 2);
                            }
                            assert(d == p);
                        }
                        if p * p <= x && x % (p as int) == 0 {
                            assert(odd_factor_below(x, p + 2));
                        }
                        if odd_factor_below(x, p as int) {
                            let d = choose|d: int|
                                3 <= d < p && d % 2 == 1 && d * d <= x && #[trigger] (x % d) == 0;
                            assert(odd_factor_below(x, p + 2));
                        }
                    }
                }
            }
        } else {
            proof {
                lemma_fundamental_div_mod(pi as int, 64);
                assert(word_bit(before, pi as int));
                assert(odd_factor_below(p as int, p as int));
                assert forall|i: int| 0 <= i < 64 * words implies #[trigger] word_bit(sieve@, i)
                    == (i < count && odd_factor_below(2 * i + 3, p + 2)) by {
                    let x = 2 * i + 3;
                    if i < count && odd_factor_below(x, p + 2) && !odd_factor_below(x, p as int) {
                        let d = choose|d: int|
                            3 <= d < p + 2 && d % 2 == 1 && d * d <= x && #[trigger] (x % d) == 0;
                        if d == p + 1 {
                            lemma_mod_adds(p as int, 1, 2);
                        }
                        assert(d == p);
                        lemma_odd_factor_composite_step(x, p as int);
                    }
                    if i < count && odd_factor_below(x, p as int) {
                        let d = choose|d: int|
                            3 <= d < p && d % 2 == 1 && d * d <= x && #[trigger] (x % d) == 0;
                        assert(odd_factor_below(x, p + 2));
                    }
                }
            }
        }
        proof {
            lemma_mod_adds(p as int, 2, 2);
        }
        p = p + 2;
    }
    proof {
        assert(limit < p * p) by (nonlinear_arith)
            requires limit / p < p, p >= 3;
        assert forall|i: int| 0 <= i < 64 * words implies #[trigger] word_bit(sieve@, i) == (i
            < count && !arith::is_prime(2 * i + 3)) by {
            if i < count {
                lemma_mod_adds(2 * i, 3, 2);
                lemma_mod_multiples_basic(i, 2);
                lemma_odd_factor_final(2 * i + 3, p as int);
            }
        }
    }
    sieve
}

/// The sieve was built (by `build_sieve`) for some limit at least `n`.
pub open spec fn sieve_up_to(sieve: Seq<u64>, n: int) -> bool {
    exists|limit: nat| n <= limit && #[trigger] sieve_for(sieve, limit)
}

/// A sieve built up to `n` is one built up to any `m <= n`, and it has a
/// bit for every odd number from 3 to `n`.
proof fn lemma_sieve_up_to(sieve: Seq<u64>, n: int, m: int)
    requires
        sieve_up_to(sieve, n),
        m <= n,
    ensures
        sieve_up_to(sieve, m),
        sieve_covers(sieve, n),
{
    let limit = choose|limit: nat| n <= limit && #[trigger] sieve_for(sieve, limit);
    assert(sieve_for(sieve, limit));
    if n >= 3 {
        assert((n - 3) / 2 <= (limit - 3) / 2) by {
            vstd::arithmetic::div_mod::lemma_div_is_ordered(n - 3, limit - 3, 2);
        }
        assert((limit - 3) / 2 < odd_count(limit));
    }
}

/// Whether `n` is prime, read from a sieve built for a limit at least `n`.
pub fn is_prime(n: u64, sieve: &[u64]) -> (r: bool)
    requires
        sieve_up_to(sieve@, n as int),
    ensures
        r == sieve_says_prime(sieve@, n as int),
        r == arith::is_prime(n as int),
{
    proof {
        lemma_sieve_up_to(sieve@, n as int, n as int);
        let limit = choose|limit: nat| n <= limit && #[trigger] sieve_for(sieve@, limit);
        lemma_sieve_answers_primality(sieve@, limit, n as int);
    }
    if n == 0 || n == 1 {
        false
    } else if n == 2 {
        true
    } else if n % 2 == 0 {
        false
    } else {
        let idx: u64 = (n - 3) / 2;
        proof {
            lemma_fundamental_div_mod(idx as int, 64);
        }
        (sieve[(idx / 64) as usize] >> (idx % 64)) & 1 == 0
    }
}

/// A sieve built for `limit` answers primality exactly for every number up
/// to `limit`.
pub proof fn lemma_sieve_answers_primality(sieve: Seq<u64>, limit: nat, n: int)
    requires
        sieve_for(sieve, limit),
        0 <= n <= limit,
    ensures
        sieve_says_prime(sieve, n) == arith::is_prime(n),
        sieve_covers(sieve, limit as int),
{
    if n >= 3 && n % 2 == 1 {
        let i = (n - 3) / 2;
        assert(2 * i + 3 == n);
        assert(i < odd_count(limit));
        assert(i < 64 * sieve.len());
    } else if n == 2 {
        assert(arith::is_prime(2));
    } else if n >= 3 {
        assert(n % 2 == 0);
    }
    if limit >= 3 {
        assert((limit - 3) / 2 < odd_count(limit));
    }
}


/// The `p` below `b` with `2 <= p <= n / 2` for which the sieve calls both
/// `p` and `n - p` prime, in increasing order.
pub open spec fn partners_below(sieve: Seq<u64>, n: nat, b: nat) -> Seq<nat>
    decreases b,
{
    if b == 0 {
        Seq::empty()
    } else {
        let p = (b - 1) as nat;
        if 2 <= p && p <= n / 2 && sieve_says_prime(sieve, p as int) && sieve_says_prime(
            sieve,
            n - p,
        ) {
            partners_below(sieve, n, p).push(p)
        } else {
            partners_below(sieve, n, p)
        }
    }
}

/// The smaller parts `p <= n - p` of the Goldbach pairs of `n`, by the sieve.
pub open spec fn goldbach_partners_of(sieve: Seq<u64>, n: nat) -> Seq<nat> {
    partners_below(sieve, n, n / 2 + 1)
}

proof fn lemma_partners_above_half(sieve: Seq<u64>, n: nat, b: nat)
    requires
        b >= n / 2 + 1,
    ensures
        partners_below(sieve, n, b) == goldbach_partners_of(sieve, n),
    decreases b,
{
    if b > n / 2 + 1 {
        lemma_partners_above_half(sieve, n, (b - 1) as nat);
    }
}

proof fn lemma_partners_contains(sieve: Seq<u64>, n: nat, b: nat, p: nat)
    ensures
        partners_below(sieve, n, b).contains(p) <==> (p < b && 2 <= p && p <= n / 2
            && sieve_says_prime(sieve, p as int) && sieve_says_prime(sieve, n - p)),
    decreases b,
{
    if b > 0 {
        let q = (b - 1) as nat;
        lemma_partners_contains(sieve, n, q, p);
        let t = partners_below(sieve, n, q);
        let s = partners_below(sieve, n, b);
        if s.contains(p) && s != t {
            let i = choose|i: int| 0 <= i < s.len() && s[i] == p;
            if i < t.len() {
                assert(t.contains(p));
            }
        }
        if t.contains(p) && s != t {
            let i = choose|i: int| 0 <= i < t.len() && t[i] == p;
            assert(s[i] == p);
        }
        if p == q && s != t {
            assert(s[t.len() as int] == p);
        }
    }
}

/// The smaller parts `p` (with `p <= n - p`) of the ways of writing the even
/// number `n >= 4` as a sum of two primes, by the sieve, in increasing order.
pub fn goldbach_partners(n: u64, sieve: &[u64]) -> (ps: Vec<u64>)
    requires
        4 <= n,
        n % 2 == 0,
        sieve_up_to(sieve@, n as int),
    ensures
        arith::nats_of(ps@) == goldbach_partners_of(sieve@, n as nat),
{
    let mut ps: Vec<u64> = Vec::new();
    proof {
        assert(partners_below(sieve@, n as nat, 0) =~= Seq::empty());
        assert(!sieve_says_prime(sieve@, 1));
        assert(!sieve_says_prime(sieve@, 0));
        assert(partners_below(sieve@, n as nat, 1) =~= Seq::empty());
        assert(partners_below(sieve@, n as nat, 2) =~= Seq::empty());
        assert(arith::nats_of(ps@) =~= Seq::empty());
    }
    if is_prime(n - 2, sieve) {
        proof {
            arith::lemma_nats_of_push(ps@, 2);
        }
        ps.push(2);
    }
    let mut p: u64 = 3;
    while p <= n / 2
        invariant
            4 <= n,
            n % 2 == 0,
            sieve_up_to(sieve@, n as int),
            3 <= p <= n / 2 + 2,
            p % 2 == 1,
            arith::nats_of(ps@) == partners_below(sieve@, n as nat, p as nat),
        decreases n / 2 + 2 - p,
    {
        if is_prime(p, sieve) && is_prime(n - p, sieve) {
            proof {
                arith::lemma_nats_of_push(ps@, p);
            }
            ps.push(p);
        }
        proof {
            lemma_mod_adds(p as int, 1, 2);
            assert(!sieve_says_prime(sieve@, p + 1));
            assert(partners_below(sieve@, n as nat, p as nat + 2) == partners_below(
                sieve@,
                n as nat,
                p as nat + 1,
            ));
        }
        p = p + 2;
        proof {
            lemma_mod_adds((p - 2) as int, 2, 2);
        }
    }
    proof {
        lemma_partners_above_half(sieve@, n as nat, p as nat);
    }
    ps
}

/// The triples `(n, p, n - p)` of the Goldbach pairs of one even `n`.
pub open spec fn triples_of(sieve: Seq<u64>, n: nat) -> Seq<(nat, nat, nat)> {
    goldbach_partners_of(sieve, n).map_values(|p: nat| (n, p, (n - p) as nat))
}

/// The Goldbach triples `(n, p, n - p)` of every even `n` with `4 <= n < b`,
/// ordered by `n`, then by `p`.
pub open spec fn goldbach_triples_below(sieve: Seq<u64>, b: nat) -> Seq<(nat, nat, nat)>
    decreases b,
{
    if b == 0 {
        Seq::empty()
    } else {
        let n = (b - 1) as nat;
        if n >= 4 && n % 2 == 0 {
            goldbach_triples_below(sieve, n) + triples_of(sieve, n)
        } else {
            goldbach_triples_below(sieve, n)
        }
    }
}

/// The values of a sequence of `u64` triples, as triples of naturals.
pub open spec fn triples_nat(s: Seq<(u64, u64, u64)>) -> Seq<(nat, nat, nat)> {
    s.map_values(|t: (u64, u64, u64)| (t.0 as nat, t.1 as nat, t.2 as nat))
}

/// All Goldbach pairs for the even numbers `n` in `4..=limit`, as triples
/// `(n, p, q)` with `p <= q` and `p + q == n`, ordered by `n`, then by `p`.
pub fn goldbach_pairs(limit: u64, sieve: &[u64]) -> (pairs: Vec<(u64, u64, u64)>)
    requires
        limit <= u64::MAX - 2,
        sieve_up_to(sieve@, limit as int),
    ensures
        triples_nat(pairs@) == goldbach_triples_below(sieve@, limit as nat + 1),
{
    let mut pairs: Vec<(u64, u64, u64)> = Vec::new();
    let mut n: u64 = 4;
    proof {
        assert(triples_nat(pairs@) =~= Seq::empty());
        assert(goldbach_triples_below(sieve@, 0) =~= Seq::empty());
        assert(goldbach_triples_below(sieve@, 1) =~= Seq::empty());
        assert(goldbach_triples_below(sieve@, 2) =~= Seq::empty());
        assert(goldbach_triples_below(sieve@, 3) =~= Seq::empty());
        assert(goldbach_triples_below(sieve@, 4) =~= Seq::empty());
    }
    while n <= limit
        invariant
            4 <= n,
            n == 4 || n <= limit + 2,
            n % 2 == 0,
            limit <= u64::MAX - 2,
            sieve_up_to(sieve@, limit as int),
            triples_nat(pairs@) == goldbach_triples_below(sieve@, n as nat),
        decreases limit + 2 - n,
    {
        let ps = goldbach_partners(n, sieve);
        let ghost start = triples_nat(pairs@);
        let mut k: usize = 0;
        while k < ps.len()
            invariant
                4 <= n <= limit,
                arith::nats_of(ps@) == goldbach_partners_of(sieve@, n as nat),
                k <= ps.len(),
                triples_nat(pairs@) == start + triples_of(sieve@, n as nat).subrange(0, k as int),
            decreases ps.len() - k,
        {
            let p = ps[k];
            proof {
                assert(arith::nats_of(ps@)[k as int] == p as nat);
                lemma_partners_contains(sieve@, n as nat, n as nat / 2 + 1, p as nat);
                assert(goldbach_partners_of(sieve@, n as nat).contains(p as nat));
                assert(triples_nat(pairs@.push((n, p, (n - p) as u64))) =~= triples_nat(pairs@).push(
                    (n as nat, p as nat, (n - p) as nat),
                ));
                assert(triples_of(sieve@, n as nat).subrange(0, k + 1) =~= triples_of(
                    sieve@,
                    n as nat,
                ).subrange(0, k as int).push((n as nat, p as nat, (n - p) as nat)));
            }
            pairs.push((n, p, n - p));
            k = k + 1;
        }
        proof {
            assert(triples_of(sieve@, n as nat).subrange(0, k as int) =~= triples_of(
                sieve@,
                n as nat,
            ));
            assert(goldbach_triples_below(sieve@, n as nat + 1) == start + triples_of(
                sieve@,
                n as nat,
            ));
            lemma_mod_adds(n as int, 1, 2);
            assert(goldbach_triples_below(sieve@, n as nat + 2) == goldbach_triples_below(
                sieve@,
                n as nat + 1,
            ));
        }
        n = n + 2;
    }
    proof {
        if n > limit + 2 {
            assert(goldbach_triples_below(sieve@, limit as nat + 1) =~= Seq::empty());
        } else if n == limit + 2 {
            lemma_mod_adds(limit as int, 1, 2);
            assert(goldbach_triples_below(sieve@, n as nat) == goldbach_triples_below(
                sieve@,
                limit as nat + 1,
            ));
        }
    }
    pairs
}

/// With a sieve built for `limit`, the Goldbach partners of an even `n` in
/// `[4, limit]` are exactly the primes `p <= n / 2` whose complement
/// `n - p` is prime too.
pub proof fn lemma_goldbach_partners_are_prime_sums(sieve: Seq<u64>, limit: nat, n: nat, p: nat)
    requires
        sieve_for(sieve, limit),
        4 <= n <= limit,
        n % 2 == 0,
    ensures
        goldbach_partners_of(sieve, n).contains(p) <==> (2 <= p <= n - p && arith::is_prime(
            p as int,
        ) && arith::is_prime(n - p)),
{
    lemma_partners_contains(sieve, n, n / 2 + 1, p);
    if p <= n {
        lemma_sieve_answers_primality(sieve, limit, p as int);
        lemma_sieve_answers_primality(sieve, limit, n - p);
    }
}

} // verus!
