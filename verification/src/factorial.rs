//! Factorials by the prime-swing method: `n! = ((n / 2)!)^2 * swing(n)`,
//! where the swing of `n` is a product of prime powers whose exponents are
//! read off the quotients of `n` by the powers of each prime.
use crate::arith::{self, is_prime, primes_below};
use crate::prime_powers::{self, factorial, legendre, prod_pow};
use crate::bignum::{nat_pow, BigNat};
use crate::digits;
use crate::twin_primes;
use rayon::iter::ParallelIterator;
use rayon::slice::ParallelSlice;
use vstd::arithmetic::div_mod::*;
use vstd::prelude::*;

verus! {

/// The exponent of `p` in the swing of `q`: how many of `q / p`, `q / p^2`,
/// ... are odd, stopping at the first quotient below `p`.
pub open spec fn swing_exp(q: nat, p: nat) -> nat
    decreases q,
{
    if p < 2 || q < p {
        0
    } else {
        proof {
            lemma_div_decreases(q as int, p as int);
        }
        ((q / p) % 2) + swing_exp(q / p, p)
    }
}

/// The contribution of a list of primes to the swing of `m`: the product of
/// `p^swing_exp(m, p)` over the list, cut short at the first `p > m`.
pub open spec fn swing_chunk(m: nat, primes: Seq<u32>) -> nat
    decreases primes.len(),
{
    if primes.len() == 0 || primes[0] > m {
        1
    } else {
        nat_pow(primes[0] as nat, swing_exp(m, primes[0] as nat)) * swing_chunk(
            m,
            primes.drop_first(),
        )
    }
}

/// Every entry is at least 2.
pub open spec fn all_at_least_two(primes: Seq<u32>) -> bool {
    forall|i: int| 0 <= i < primes.len() ==> #[trigger] primes[i] >= 2
}

/// `n!` by the swing recursion over a given list of primes.
pub open spec fn factorial_by_swing(n: nat, primes: Seq<u32>) -> nat
    decreases n,
{
    if n <= 1 {
        1
    } else {
        let h = factorial_by_swing(n / 2, primes);
        h * h * swing_chunk(n, primes)
    }
}

/// The primes up to `n`, in increasing order, as `u32`s.
pub open spec fn prime_list(n: nat) -> Seq<u32> {
    primes_below(n + 1).map_values(|x: nat| x as u32)
}

/// The number of chunks of size `size` that cover `len` items.
pub open spec fn chunk_count(len: nat, size: nat) -> nat {
    if len % size == 0 {
        len / size
    } else {
        len / size + 1
    }
}

/// Where chunk `j` of size `size` starts, within `len` items.
pub open spec fn chunk_start(j: nat, size: nat, len: nat) -> nat {
    if j * size <= len {
        j * size
    } else {
        len
    }
}

proof fn lemma_swing_exp_le(q: nat, p: nat)
    ensures
        swing_exp(q, p) <= q,
    decreases q,
{
    if p >= 2 && q >= p {
        lemma_div_decreases(q as int, p as int);
        lemma_swing_exp_le(q / p, p);
    }
}

/// Cutting a list whose front part is all at most `m` splits the swing
/// contribution into a product.
proof fn lemma_swing_chunk_concat(m: nat, a: Seq<u32>, b: Seq<u32>)
    requires
        forall|i: int| 0 <= i < a.len() ==> #[trigger] a[i] <= m,
    ensures
        swing_chunk(m, a + b) == swing_chunk(m, a) * swing_chunk(m, b),
    decreases a.len(),
{
    if a.len() == 0 {
        assert(a + b =~= b);
        assert(swing_chunk(m, a) == 1);
    } else {
        let rest = a.drop_first();
        assert forall|i: int| 0 <= i < rest.len() implies #[trigger] rest[i] <= m by {
            assert(rest[i] == a[i + 1]);
        }
        assert(a[0] <= m);
        lemma_swing_chunk_concat(m, rest, b);
        assert((a + b).drop_first() =~= rest + b);
        assert((a + b)[0] == a[0]);
        let x = nat_pow(a[0] as nat, swing_exp(m, a[0] as nat));
        assert(x * (swing_chunk(m, rest) * swing_chunk(m, b)) == (x * swing_chunk(m, rest))
            * swing_chunk(m, b)) by (nonlinear_arith);
    }
}

/// The entries of a list of `u32`s, as natural numbers.
pub open spec fn u32_nats(s: Seq<u32>) -> Seq<nat> {
    s.map_values(|x: u32| x as nat)
}

/// `legendre(x, p) = x / p + legendre(x / p, p)`, also below `p`.
proof fn lemma_legendre_unfold(x: nat, p: nat)
    requires
        p >= 2,
    ensures
        legendre(x, p) == x / p + legendre(x / p, p),
{
    if x < p {
        assert(x / p == 0) by {
            lemma_fundamental_div_mod_converse_div(x as int, p as int, 0, x as int);
        }
        assert(legendre(0, p) == 0);
    }
}

/// The swing exponent of `p` in `q` is what Legendre's count for `q!` has
/// beyond twice that for `(q / 2)!`: the swing of `q` is `q! / ((q / 2)!)^2`
/// prime by prime.
pub proof fn lemma_swing_exp_legendre(q: nat, p: nat)
    requires
        p >= 2,
    ensures
        swing_exp(q, p) + 2 * legendre(q / 2, p) == legendre(q, p),
    decreases q,
{
    if q < p {
        assert(q / 2 < p);
    } else {
        let qp = q / p;
        lemma_div_decreases(q as int, p as int);
        lemma_swing_exp_legendre(qp, p);
        lemma_div_denominator(q as int, 2, p as int);
        lemma_div_denominator(q as int, p as int, 2);
        assert((q / 2) / p == qp / 2) by {
            assert(2 * p == p * 2);
        }
        lemma_legendre_unfold(q / 2, p);
        lemma_fundamental_div_mod(qp as int, 2);
    }
}

/// Over increasing primes, the swing contribution of a list is the product
/// of `p^swing_exp(m, p)` over all of it: the primes above `m` past the cut
/// have exponent 0.
proof fn lemma_swing_chunk_prod(m: nat, l: Seq<u32>)
    requires
        all_at_least_two(l),
        forall|i: int, j: int| 0 <= i < j < l.len() ==> l[i] < l[j],
    ensures
        swing_chunk(m, l) == prod_pow(u32_nats(l), |p: nat| swing_exp(m, p)),
    decreases l.len(),
{
    let f = |p: nat| swing_exp(m, p);
    if l.len() > 0 {
        let t = l.drop_first();
        assert(u32_nats(l).drop_first() =~= u32_nats(t));
        assert(u32_nats(l)[0] == l[0] as nat);
        if l[0] > m {
            assert forall|i: int| 0 <= i < u32_nats(t).len() implies f(
                #[trigger] u32_nats(t)[i],
            ) == 0 by {
                assert(t[i] == l[i + 1]);
                assert(l[0] < l[i + 1]);
            }
            prime_powers::lemma_prod_pow_one(u32_nats(t), f);
            assert(f(l[0] as nat) == 0);
            assert(nat_pow(l[0] as nat, 0) == 1);
        } else {
            assert(all_at_least_two(t)) by {
                assert forall|i: int| 0 <= i < t.len() implies #[trigger] t[i] >= 2 by {
                    assert(t[i] == l[i + 1]);
                }
            }
            assert forall|i: int, j: int| 0 <= i < j < t.len() implies t[i] < t[j] by {
                assert(t[i] == l[i + 1]);
                assert(t[j] == l[j + 1]);
            }
            lemma_swing_chunk_prod(m, t);
        }
    }
}

/// The primes up to `n` as `u32`s are, as natural numbers, the primes up to
/// `n`, increasing and at least 2.
proof fn lemma_prime_list(n: nat)
    requires
        n <= u32::MAX,
    ensures
        u32_nats(prime_list(n)) == primes_below(n + 1),
        all_at_least_two(prime_list(n)),
        forall|i: int, j: int|
            0 <= i < j < prime_list(n).len() ==> prime_list(n)[i] < prime_list(n)[j],
{
    arith::lemma_primes_in_props(0, n + 1);
    let s = primes_below(n + 1);
    assert forall|i: int| 0 <= i < s.len() implies (#[trigger] prime_list(n)[i]) as nat == s[i] by {
        assert(s[i] < n + 1);
    }
    assert(u32_nats(prime_list(n)) =~= s);
    assert forall|i: int| 0 <= i < prime_list(n).len() implies #[trigger] prime_list(n)[i] >= 2 by {
        assert(is_prime(s[i] as int));
    }
}

/// The swing recursion computes the factorial: with the primes up to `n`,
/// `factorial_by_swing(m) = m!` for every `m <= n`.
pub proof fn lemma_factorial_by_swing(n: nat, m: nat)
    requires
        m <= n <= u32::MAX,
    ensures
        factorial_by_swing(m, prime_list(n)) == factorial(m),
    decreases m,
{
    if m <= 1 {
        assert(factorial(0) == 1);
        assert(factorial(1) == 1 * factorial(0));
    } else {
        let h = m / 2;
        lemma_factorial_by_swing(n, h);
        let s = primes_below(n + 1);
        let lh = |p: nat| legendre(h, p);
        let lm = |p: nat| legendre(m, p);
        let sw = |p: nat| swing_exp(m, p);
        let two_lh = |p: nat| legendre(h, p) + legendre(h, p);
        lemma_prime_list(n);
        lemma_swing_chunk_prod(m, prime_list(n));
        prime_powers::lemma_factorial_prime_powers(h);
        prime_powers::lemma_factorial_prime_powers(m);
        assert forall|p: nat| h < p <= n && is_prime(p as int) implies #[trigger] lh(p) == 0 by {}
        prime_powers::lemma_prod_pow_primes_widen(h, n, lh);
        assert forall|p: nat| m < p <= n && is_prime(p as int) implies #[trigger] lm(p) == 0 by {}
        prime_powers::lemma_prod_pow_primes_widen(m, n, lm);
        arith::lemma_primes_in_props(0, n + 1);
        assert forall|i: int| 0 <= i < s.len() implies two_lh(#[trigger] s[i]) == lh(s[i]) + lh(
            s[i],
        ) by {}
        prime_powers::lemma_prod_pow_mul(s, lh, lh, two_lh);
        assert forall|i: int| 0 <= i < s.len() implies lm(#[trigger] s[i]) == two_lh(s[i]) + sw(
            s[i],
        ) by {
            lemma_swing_exp_legendre(m, s[i]);
        }
        prime_powers::lemma_prod_pow_mul(s, two_lh, sw, lm);
    }
}

/// The swing identity: over the primes up to `b`, the swing of `m <= b`
/// times `((m / 2)!)^2` is `m!`.
pub proof fn lemma_swing_identity(b: nat, m: nat)
    requires
        m <= b <= u32::MAX,
    ensures
        swing_chunk(m, prime_list(b)) * (factorial(m / 2) * factorial(m / 2)) == factorial(m),
{
    if m <= 1 {
        lemma_prime_list(b);
        let l = prime_list(b);
        if l.len() > 0 {
            assert(l[0] >= 2);
        }
        assert(swing_chunk(m, l) == 1);
        assert(factorial(0) == 1);
        assert(factorial(1) == 1 * factorial(0));
        assert(m / 2 == 0);
    } else {
        lemma_factorial_by_swing(b, m);
        lemma_factorial_by_swing(b, m / 2);
        let h = factorial(m / 2);
        let w = swing_chunk(m, prime_list(b));
        assert(h * h * w == w * (h * h)) by (nonlinear_arith);
    }
}

/// The primes up to `n`, in increasing order.
pub fn sieve(n: u64) -> (primes: Vec<u32>)
    requires
        n <= u32::MAX,
        n < isize::MAX,
    ensures
        primes@ == prime_list(n as nat),
{
    let wide = twin_primes::small_sieve(n);
    proof {
        arith::lemma_primes_in_props(0, n as nat + 1);
    }
    let mut primes: Vec<u32> = Vec::new();
    let mut i: usize = 0;
    while i < wide.len()
        invariant
            i <= wide@.len(),
            n <= u32::MAX,
            arith::nats_of(wide@) == primes_below(n as nat + 1),
            forall|j: int|
                0 <= j < primes_below(n as nat + 1).len() ==> #[trigger] primes_below(
                    n as nat + 1,
                )[j] < n + 1,
            primes@ == prime_list(n as nat).take(i as int),
        decreases wide@.len() - i,
    {
        assert(arith::nats_of(wide@)[i as int] == wide@[i as int] as nat);
        primes.push(wide[i] as u32);
        i = i + 1;
        assert(primes@ =~= prime_list(n as nat).take(i as int));
    }
    assert(primes@ =~= prime_list(n as nat));
    primes
}

/// The contribution of `primes` to the swing of `m`: each `p <= m` raised to
/// the number of odd quotients among `m / p`, `m / p^2`, ... The primes are
/// taken to be in increasing order, so the first one above `m` ends the
/// product.
pub fn compute_swing_chunk(m: u64, primes: &[u32]) -> (r: BigNat)
    requires
        all_at_least_two(primes@),
    ensures
        r@ == swing_chunk(m as nat, primes@),
{
    let mut result = BigNat::from_u64(1);
    let mut i: usize = 0;
    assert(primes@.subrange(0, primes@.len() as int) =~= primes@);
    while i < primes.len()
        invariant
            i <= primes@.len(),
            all_at_least_two(primes@),
            swing_chunk(m as nat, primes@) == result@ * swing_chunk(
                m as nat,
                primes@.subrange(i as int, primes@.len() as int),
            ),
        decreases primes@.len() - i,
    {
        let ghost rest = primes@.subrange(i as int, primes@.len() as int);
        assert(rest[0] == primes@[i as int]);
        let p = primes[i] as u64;
        if p > m {
            assert(swing_chunk(m as nat, rest) == 1);
            assert(swing_chunk(m as nat, primes@.subrange(primes@.len() as int, primes@.len() as int))
                == 1);
            i = primes.len();
        } else {
            assert(p >= 2);
            let mut exp: u64 = 0;
            let mut q: u64 = m;
            proof {
                lemma_swing_exp_le(m as nat, p as nat);
            }
            while q >= p
                invariant
                    p >= 2,
                    exp + swing_exp(q as nat, p as nat) == swing_exp(m as nat, p as nat),
                    swing_exp(m as nat, p as nat) <= m,
                decreases q,
            {
                proof {
                    lemma_div_decreases(q as int, p as int);
                }
                q = q / p;
                if q % 2 == 1 {
                    exp = exp + 1;
                }
            }
            let ghost before = result@;
            let ghost pw = nat_pow(p as nat, exp as nat);
            if exp > 0 {
                result = result.mul(&BigNat::pow(p, exp));
            } else {
                assert(pw == 1);
                assert(result@ == before * pw) by (nonlinear_arith)
                    requires
                        pw == 1,
                        result@ == before,
                ;
            }
            proof {
                assert(rest.drop_first() =~= primes@.subrange(i + 1, primes@.len() as int));
                let tail = swing_chunk(m as nat, rest.drop_first());
                assert(swing_chunk(m as nat, rest) == pw * tail);
                assert(before * (pw * tail) == (before * pw) * tail) by (nonlinear_arith);
            }
            i = i + 1;
        }
    }
    assert(primes@.subrange(i as int, primes@.len() as int) =~= Seq::<u32>::empty());
    assert(result@ * 1 == result@);
    result
}

/// The number of threads of rayon's current pool
/// (`rayon::current_num_threads`); nothing is promised of the number.
#[verifier::external_body]
fn current_num_threads() -> (n: usize) {
    rayon::current_num_threads()
}

/// The swing contributions of the consecutive chunks of `size` primes of
/// `primes`, computed on the rayon thread pool with `compute_swing_chunk`.
/// rayon's `par_chunks(size)` cuts the slice into non-overlapping chunks of
/// exactly `size` items but the last, and `map(..).collect()` into a `Vec`
/// keeps their order: the contract claims one result per chunk, each what
/// `compute_swing_chunk` promises for its chunk.
#[verifier::external_body]
fn swing_chunks_in_parallel(m: u64, primes: &Vec<u32>, size: usize) -> (parts: Vec<BigNat>)
    requires
        size > 0,
        all_at_least_two(primes@),
    ensures
        parts@.len() == chunk_count(primes@.len(), size as nat),
        forall|j: int|
            0 <= j < parts@.len() ==> (#[trigger] parts@[j])@ == swing_chunk(
                m as nat,
                primes@.subrange(
                    chunk_start(j as nat, size as nat, primes@.len()) as int,
                    chunk_start(j as nat + 1, size as nat, primes@.len()) as int,
                ),
            ),
{
    primes.par_chunks(size).map(|chunk| compute_swing_chunk(m, chunk)).collect()
}

proof fn lemma_chunk_count_covers(len: nat, size: nat)
    requires
        size > 0,
    ensures
        chunk_start(chunk_count(len, size), size, len) == len,
{
    lemma_fundamental_div_mod(len as int, size as int);
    let q = len / size;
    let c = chunk_count(len, size);
    if len % size == 0 {
        assert(c * size == len) by (nonlinear_arith)
            requires
                len == size * q + 0,
                c == q,
        ;
    } else {
        let r = len % size;
        assert(c * size >= len) by (nonlinear_arith)
            requires
                len == size * q + r,
                r < size,
                c == q + 1,
        ;
    }
}

proof fn lemma_chunk_start_monotone(j: nat, size: nat, len: nat)
    ensures
        chunk_start(j, size, len) <= chunk_start(j + 1, size, len) <= len,
{
    assert(j * size <= (j + 1) * size) by (nonlinear_arith);
}

/// The swing of `m` over the primes of `primes` up to `m`: the primes up to
/// `m` are cut into one chunk per thread, the chunks' contributions are
/// computed in parallel, and their product is taken.
pub fn compute_swing(m: u64, primes: &[u32]) -> (r: BigNat)
    requires
        all_at_least_two(primes@),
    ensures
        r@ == swing_chunk(m as nat, primes@),
{
    let mut relevant: Vec<u32> = Vec::new();
    let mut k: usize = 0;
    while k < primes.len() && primes[k] as u64 <= m
        invariant
            k <= primes@.len(),
            relevant@ == primes@.take(k as int),
            forall|j: int| 0 <= j < k ==> #[trigger] primes@[j] <= m,
        decreases primes@.len() - k,
    {
        relevant.push(primes[k]);
        k = k + 1;
        assert(relevant@ =~= primes@.take(k as int));
    }
    proof {
        let tail = primes@.subrange(k as int, primes@.len() as int);
        assert(primes@ =~= relevant@ + tail);
        lemma_swing_chunk_concat(m as nat, relevant@, tail);
        if tail.len() > 0 {
            assert(tail[0] == primes@[k as int]);
        }
        assert(swing_chunk(m as nat, tail) == 1);
        assert(swing_chunk(m as nat, relevant@) * 1 == swing_chunk(m as nat, relevant@));
        assert(swing_chunk(m as nat, primes@) == swing_chunk(m as nat, relevant@));
        assert(all_at_least_two(relevant@));
    }
    if relevant.len() == 0 {
        return BigNat::from_u64(1);
    }
    let threads = current_num_threads();
    let num_threads: usize = if threads < 1 {
        1
    } else {
        threads
    };
    let len = relevant.len();
    let ceil: usize = if len % num_threads == 0 {
        len / num_threads
    } else {
        proof {
            assert(num_threads != 1);
            lemma_div_decreases(len as int, num_threads as int);
        }
        len / num_threads + 1
    };
    let size: usize = if ceil < 1 {
        1
    } else {
        ceil
    };
    let parts = swing_chunks_in_parallel(m, &relevant, size);
    let mut acc = BigNat::from_u64(1);
    let mut j: usize = 0;
    proof {
        assert(0 * (size as nat) == 0);
        assert(relevant@.subrange(0, 0) =~= Seq::<u32>::empty());
    }
    while j < parts.len()
        invariant
            swing_chunk(m as nat, primes@) == swing_chunk(m as nat, relevant@),
            j <= parts@.len(),
            size > 0,
            parts@.len() == chunk_count(relevant@.len(), size as nat),
            forall|i: int| 0 <= i < relevant@.len() ==> #[trigger] relevant@[i] <= m,
            forall|t: int|
                0 <= t < parts@.len() ==> (#[trigger] parts@[t])@ == swing_chunk(
                    m as nat,
                    relevant@.subrange(
                        chunk_start(t as nat, size as nat, relevant@.len()) as int,
                        chunk_start(t as nat + 1, size as nat, relevant@.len()) as int,
                    ),
                ),
            acc@ == swing_chunk(
                m as nat,
                relevant@.subrange(0, chunk_start(j as nat, size as nat, relevant@.len()) as int),
            ),
        decreases parts@.len() - j,
    {
        let ghost lo = chunk_start(j as nat, size as nat, relevant@.len()) as int;
        let ghost hi = chunk_start(j as nat + 1, size as nat, relevant@.len()) as int;
        proof {
            lemma_chunk_start_monotone(j as nat, size as nat, relevant@.len());
            let a = relevant@.subrange(0, lo);
            let b = relevant@.subrange(lo, hi);
            assert(relevant@.subrange(0, hi) =~= a + b);
            lemma_swing_chunk_concat(m as nat, a, b);
        }
        acc = acc.mul(&parts[j]);
        j = j + 1;
    }
    proof {
        lemma_chunk_count_covers(relevant@.len(), size as nat);
        assert(relevant@.subrange(0, relevant@.len() as int) =~= relevant@);
    }
    acc
}

/// `n!` by the swing recursion: `((n / 2)!)^2` times the swing of `n`.
pub fn factorial_rec(n: u64, primes: &[u32]) -> (r: BigNat)
    requires
        all_at_least_two(primes@),
    ensures
        r@ == factorial_by_swing(n as nat, primes@),
        forall|b: nat| n <= b <= u32::MAX && primes@ == prime_list(b) ==> r@ == factorial(n as nat),
    decreases n,
{
    proof {
        assert forall|b: nat| n <= b <= u32::MAX && primes@ == prime_list(b) implies factorial_by_swing(
            n as nat,
            primes@,
        ) == factorial(n as nat) by {
            lemma_factorial_by_swing(b, n as nat);
        }
    }
    if n <= 1 {
        return BigNat::from_u64(1);
    }
    let half = factorial_rec(n / 2, primes);
    let swing = compute_swing(n, primes);
    half.mul(&half).mul(&swing)
}

/// `n!`, by the swing recursion over the primes up to `n`.
pub fn calculate_factorial(n: u64) -> (r: BigNat)
    requires
        n <= u32::MAX,
        n < isize::MAX,
    ensures
        r@ == factorial_by_swing(n as nat, prime_list(n as nat)),
        r@ == factorial(n as nat),
{
    proof {
        lemma_factorial_by_swing(n as nat, n as nat);
    }
    if n <= 1 {
        return BigNat::from_u64(1);
    }
    let primes = sieve(n);
    proof {
        arith::lemma_primes_in_props(0, n as nat + 1);
        assert forall|i: int| 0 <= i < primes@.len() implies #[trigger] primes@[i] >= 2 by {
            assert(primes@[i] == prime_list(n as nat)[i]);
            assert(arith::is_prime(primes_below(n as nat + 1)[i] as int));
        }
    }
    factorial_rec(n, &primes)
}

/// Format an integer with thousands separators (e.g. 1234567 -> "1,234,567").
pub fn fmt_int(n: u64) -> (s: String)
    ensures
        s@ == digits::with_commas(n as nat),
{
    digits::fmt_int(n)
}

} // verus!
