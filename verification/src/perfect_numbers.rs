//! Perfect numbers `2^(p-1) * (2^p - 1)` from Mersenne primes `2^p - 1`,
//! found with the Lucas-Lehmer test.
use crate::amicable::{divisor_sum_below, proper_divisor_sum};
use crate::arith;
use crate::twin_primes;
use crate::bignum::{bits_of, two_pow, BigNat};
use vstd::prelude::*;

verus! {

/// Primality by trial division by 2 and the odd numbers up to the square root.
pub fn is_prime(n: u64) -> (r: bool)
    ensures
        r == arith::is_prime(n as int),
{
    if n < 2 {
        return false;
    }
    if n == 2 {
        return true;
    }
    if n % 2 == 0 {
        assert(!arith::is_prime(n as int)) by {
            assert((n as int) % 2 == 0);
        }
        return false;
    }
    let mut i: u64 = 3;
    while i <= n / i
        invariant
            3 <= n,
            n % 2 == 1,
            3 <= i,
            i % 2 == 1,
            forall|d: int| 2 <= d < i ==> #[trigger] ((n as int) % d) != 0,
        decreases n - i,
    {
        assert(i * i <= n) by (nonlinear_arith)
            requires i <= n / i, i >= 3;
        if n % i == 0 {
            assert(i < n) by (nonlinear_arith)
                requires i * i <= n, i >= 3;
            return false;
        }
        proof {
            let e = i + 1;
            assert(e % 2 == 0) by {
                vstd::arithmetic::div_mod::lemma_mod_adds(i as int, 1, 2);
            }
            if (n as int) % e == 0 {
                arith::lemma_divides_trans(2, e, n as int);
            }
            assert(i + 2 <= n) by (nonlinear_arith)
                requires i * i <= n, i >= 3;
        }
        i = i + 2;
        proof {
            vstd::arithmetic::div_mod::lemma_mod_adds((i - 2) as int, 2, 2);
        }
    }
    proof {
        assert(n < i * i) by (nonlinear_arith)
            requires n / i < i, i >= 3;
        if !arith::is_prime(n as int) {
            let p = arith::lemma_composite_has_small_prime_factor(n as int);
            assert(p < i) by (nonlinear_arith)
                requires p * p <= n, n < i * i, p >= 2, i >= 3;
        }
    }
    true
}


/// The Mersenne number `2^p - 1`.
pub open spec fn mersenne(p: nat) -> nat {
    (two_pow(p) - 1) as nat
}

/// The terms of the Lucas-Lehmer sequence modulo `m`: 4, then
/// `(s * s - 2) mod m` (the least nonnegative residue).
pub open spec fn ll_term(k: nat, m: nat) -> int
    decreases k,
{
    if k == 0 {
        4
    } else {
        let s = ll_term((k - 1) as nat, m);
        (s * s - 2) % (m as int)
    }
}

/// The Lucas-Lehmer test passes for `p`: `p == 2`, or term `p - 2` of the
/// sequence modulo `2^p - 1` is 0.
pub open spec fn lucas_lehmer_holds(p: nat) -> bool {
    p == 2 || ll_term((p - 2) as nat, mersenne(p)) == 0
}

/// The candidate perfect number `2^(p-1) * (2^p - 1)`.
pub open spec fn perfect_candidate(p: nat) -> nat {
    two_pow((p - 1) as nat) * mersenne(p)
}

proof fn lemma_two_pow_ge(k: nat, j: nat)
    requires
        j <= k,
    ensures
        two_pow(j) <= two_pow(k),
    decreases k,
{
    if j < k {
        lemma_two_pow_ge((k - 1) as nat, j);
        crate::bignum::lemma_two_pow_pos((k - 1) as nat);
    }
}

/// The Lucas-Lehmer test of the Mersenne number `2^p - 1`.
pub fn lucas_lehmer(p: u64) -> (r: bool)
    requires
        2 <= p <= u32::MAX,
    ensures
        r == lucas_lehmer_holds(p as nat),
        r == arith::is_prime(mersenne(p as nat) as int),
{
    proof {
        if lucas_lehmer_holds(p as nat) {
            crate::lucas_lehmer::lemma_lucas_lehmer_sound(p as nat);
        }
        if arith::is_prime(mersenne(p as nat) as int) {
            crate::lucas_lehmer::lemma_lucas_lehmer_complete(p as nat);
        }
    }
    if p == 2 {
        return true;
    }
    let one = BigNat::from_u64(1);
    let pw = BigNat::pow2(p);
    proof {
        crate::bignum::lemma_two_pow_pos(p as nat);
        lemma_two_pow_ge(p as nat, 3);
        reveal_with_fuel(two_pow, 4);
    }
    let mp = pw.sub(&one);
    let two = BigNat::from_u64(2);
    let mut s = BigNat::from_u64(4);
    let mut i: u64 = 0;
    while i < p - 2
        invariant
            3 <= p,
            mp@ == mersenne(p as nat),
            mp@ >= 7,
            two@ == 2,
            i <= p - 2,
            s@ == ll_term(i as nat, mp@),
            s@ < mp@,
        decreases p - 2 - i,
    {
        let sq = s.mul(&s);
        let ghost m = mp@ as int;
        let ghost prev = ll_term(i as nat, mp@);
        if !sq.lt(&two) {
            let d = sq.sub(&two);
            let (q, rem) = d.divmod(&mp);
            proof {
                assert(d@ == prev * prev - 2);
                assert(d@ as int == (q@ as int) * m + rem@ as int);
                vstd::arithmetic::div_mod::lemma_fundamental_div_mod_converse(
                    d@ as int,
                    m,
                    q@ as int,
                    rem@ as int,
                );
            }
            s = rem;
        } else {
            let lack = two.sub(&sq);
            proof {
                assert(-2 <= prev * prev - 2 < 0);
                vstd::arithmetic::div_mod::lemma_fundamental_div_mod_converse(
                    prev * prev - 2,
                    m,
                    -1,
                    prev * prev - 2 + m,
                );
            }
            s = mp.sub(&lack);
        }
        i = i + 1;
    }
    let zero = BigNat::zero();
    s.equals(&zero)
}

/// Check that `n = 2^(p-1) * (2^p - 1)` is perfect with the multiplicative
/// divisor-sum formula `sigma(n) = (2^p - 1) * 2^p = 2n`, computed with
/// `mp = 2^p - 1` as `mp * (mp + 1) == 2n`; that identity always holds.
pub fn verify_perfect(p: u64) -> (r: bool)
    requires
        1 <= p <= u32::MAX,
    ensures
        r == (mersenne(p as nat) * (mersenne(p as nat) + 1) == 2 * perfect_candidate(p as nat)),
        r,
{
    let one = BigNat::from_u64(1);
    proof {
        crate::bignum::lemma_two_pow_pos(p as nat);
    }
    let mp = BigNat::pow2(p).sub(&one);
    let n = BigNat::pow2(p - 1).mul(&mp);
    let sigma = mp.mul(&mp.add(&one));
    let twice = n.add(&n);
    proof {
        assert(two_pow(p as nat) == 2 * two_pow((p - 1) as nat));
        let m = mersenne(p as nat);
        let h = two_pow((p - 1) as nat);
        assert(m * (m + 1) == 2 * (h * m)) by (nonlinear_arith)
            requires m + 1 == 2 * h;
    }
    sigma.equals(&twice)
}

/// The perfect numbers `2^(p-1) * (2^p - 1)` that the search up to `limit`
/// lists, for `p` from `from` to `max_p`: primes `p` whose Mersenne number
/// `2^p - 1` is prime, until the first candidate above `limit`.
pub open spec fn perfect_list(limit: nat, from: nat, max_p: nat) -> Seq<(nat, nat)>
    decreases max_p + 1 - from,
{
    if from > max_p {
        Seq::empty()
    } else if !arith::is_prime(from as int) || !arith::is_prime(mersenne(from) as int) {
        perfect_list(limit, from + 1, max_p)
    } else if perfect_candidate(from) > limit {
        Seq::empty()
    } else {
        seq![(from, perfect_candidate(from))] + perfect_list(limit, from + 1, max_p)
    }
}

/// What the search makes of one exponent `p`.
pub enum Candidate {
    /// `p` is not prime, so `2^p - 1` is not tried.
    CompositeExponent,
    /// `p` is prime but `M_p = 2^p - 1` fails the Lucas-Lehmer test.
    NotMersennePrime(BigNat),
    /// `M_p` passes the test and `n = 2^(p-1) * M_p` is within the limit;
    /// the flag is the result of `verify_perfect`.
    Perfect(BigNat, BigNat, bool),
    /// `M_p` passes the test but `n` exceeds the limit, which ends the search.
    ExceedsLimit(BigNat, BigNat),
}

/// The exponents tried for a limit: `p` up to half its bit length plus 3.
pub fn search_bound(limit: &BigNat) -> (max_p: u64)
    requires
        limit@ < two_pow(8589934584),
    ensures
        max_p == bits_of(limit@) / 2 + 3,
{
    proof {
        lemma_two_pow_ge(u64::MAX as nat, 8589934584);
    }
    let bits = limit.bit_length();
    proof {
        if bits > 8589934584 {
            lemma_two_pow_ge((bits - 1) as nat, 8589934584);
        }
    }
    bits / 2 + 3
}

/// One step of the search for perfect numbers up to `limit`: what the
/// exponent `p` gives.
pub fn examine_candidate(p: u64, limit: &BigNat) -> (c: Candidate)
    requires
        2 <= p <= u32::MAX,
    ensures
        !arith::is_prime(p as int) <==> c is CompositeExponent,
        c matches Candidate::NotMersennePrime(mp) ==> arith::is_prime(p as int) && !arith::is_prime(
            mersenne(p as nat) as int,
        ) && mp@ == mersenne(p as nat),
        c matches Candidate::Perfect(mp, n, ok) ==> arith::is_prime(p as int) && arith::is_prime(
            mersenne(p as nat) as int,
        ) && mp@ == mersenne(p as nat) && n@ == perfect_candidate(p as nat) && n@ <= limit@ && ok
            && perfect_entry((p as nat, n@)),
        c matches Candidate::ExceedsLimit(mp, n) ==> arith::is_prime(p as int) && arith::is_prime(
            mersenne(p as nat) as int,
        ) && mp@ == mersenne(p as nat) && n@ == perfect_candidate(p as nat) && n@ > limit@,
        arith::is_prime(p as int) && !arith::is_prime(mersenne(p as nat) as int)
            ==> c is NotMersennePrime,
        arith::is_prime(p as int) && arith::is_prime(mersenne(p as nat) as int) && perfect_candidate(
            p as nat,
        ) <= limit@ ==> c is Perfect,
        arith::is_prime(p as int) && arith::is_prime(mersenne(p as nat) as int) && perfect_candidate(
            p as nat,
        ) > limit@ ==> c is ExceedsLimit,
{
    if !is_prime(p) {
        return Candidate::CompositeExponent;
    }
    let one = BigNat::from_u64(1);
    proof {
        crate::bignum::lemma_two_pow_pos(p as nat);
    }
    let mp = BigNat::pow2(p).sub(&one);
    if !lucas_lehmer(p) {
        return Candidate::NotMersennePrime(mp);
    }
    proof {
        lemma_mersenne_prime_gives_perfect(p as nat);
    }
    let pn = BigNat::pow2(p - 1).mul(&mp);
    if limit.lt(&pn) {
        Candidate::ExceedsLimit(mp, pn)
    } else {
        let ok = verify_perfect(p);
        Candidate::Perfect(mp, pn, ok)
    }
}

/// The values of a list of `(p, n)` pairs.
pub open spec fn perfect_pairs(v: Seq<(u64, BigNat)>) -> Seq<(nat, nat)> {
    v.map_values(|e: (u64, BigNat)| (e.0 as nat, e.1@))
}

/// All even perfect numbers up to `limit`, each `2^(p-1) (2^p - 1)` with
/// `2^p - 1` prime, with their exponents `p`, in increasing order. Candidates are searched for `p` up
/// to half the bit length of `limit` plus 3.
pub fn generate_perfect_numbers(limit: &BigNat) -> (results: Vec<(u64, BigNat)>)
    requires
        limit@ < two_pow(8589934584),
    ensures
        limit@ < 6 ==> results@.len() == 0,
        limit@ >= 6 ==> perfect_pairs(results@) == perfect_list(
            limit@,
            2,
            bits_of(limit@) / 2 + 3,
        ),
        forall|i: int|
            0 <= i < results@.len() ==> perfect_entry(
                (#[trigger] results@[i].0 as nat, results@[i].1@),
            ),
        forall|p: nat|
            2 <= p && arith::is_prime(p as int) && arith::is_prime(mersenne(p) as int)
                && #[trigger] perfect_candidate(p) <= limit@ ==> exists|i: int|
                0 <= i < results@.len() && results@[i].0 == p && results@[i].1@
                    == perfect_candidate(p),
        forall|n: nat|
            n > 0 && n % 2 == 0 && #[trigger] proper_divisor_sum(n) == n && n <= limit@
                ==> exists|i: int| 0 <= i < results@.len() && results@[i].1@ == n,
{
    let mut results: Vec<(u64, BigNat)> = Vec::new();
    let six = BigNat::from_u64(6);
    if limit.lt(&six) {
        proof {
            assert forall|p: nat|
                2 <= p && arith::is_prime(p as int) && arith::is_prime(mersenne(p) as int)
                    && #[trigger] perfect_candidate(p) <= limit@ implies false by {
                assert(two_pow(0) == 1);
                assert(two_pow(1) == 2);
                assert(two_pow(2) == 4);
                assert(mersenne(2) == 3);
                assert(perfect_candidate(2) == two_pow(1) * mersenne(2));
                assert(perfect_candidate(2) == 6);
                if p > 2 {
                    lemma_candidate_increasing(2, p);
                }
            }
            assert forall|n: nat|
                n > 0 && n % 2 == 0 && #[trigger] proper_divisor_sum(n) == n && n <= limit@
                    implies false by {
                let p = crate::even_perfect::lemma_even_perfect_is_euclid(n);
                assert(perfect_candidate(p) <= limit@);
            }
        }
        return results;
    }
    proof {
        lemma_two_pow_ge(u64::MAX as nat, 8589934584);
    }
    let bits = limit.bit_length();
    proof {
        if bits > 8589934584 {
            lemma_two_pow_ge((bits - 1) as nat, 8589934584);
        }
    }
    let max_p = bits / 2 + 3;
    let mut p: u64 = 2;
    let mut done = false;
    proof {
        assert(perfect_pairs(results@) =~= Seq::empty());
    }
    while p <= max_p && !done
        invariant
            max_p <= u32::MAX,
            2 <= p <= max_p + 1,
            done ==> perfect_list(limit@, p as nat, max_p as nat) == Seq::<(nat, nat)>::empty(),
            perfect_pairs(results@) + perfect_list(limit@, p as nat, max_p as nat) == perfect_list(
                limit@,
                2,
                max_p as nat,
            ),
        decreases max_p + 1 - p + (if done {
            0int
        } else {
            1int
        }),
    {
        if is_prime(p) && lucas_lehmer(p) {
            let one = BigNat::from_u64(1);
            proof {
                crate::bignum::lemma_two_pow_pos(p as nat);
            }
            let mp = BigNat::pow2(p).sub(&one);
            let pn = BigNat::pow2(p - 1).mul(&mp);
            if limit.lt(&pn) {
                done = true;
                proof {
                    assert(perfect_pairs(results@) + perfect_list(limit@, p as nat, max_p as nat)
                        =~= perfect_pairs(results@));
                }
            } else {
                proof {
                    assert(perfect_pairs(results@.push((p, pn))) =~= perfect_pairs(results@) + seq![
                        (p as nat, pn@),
                    ]);
                    assert(perfect_pairs(results@.push((p, pn))) + perfect_list(
                        limit@,
                        p as nat + 1,
                        max_p as nat,
                    ) =~= perfect_pairs(results@) + perfect_list(limit@, p as nat, max_p as nat));
                }
                results.push((p, pn));
                p = p + 1;
            }
        } else {
            p = p + 1;
        }
    }
    proof {
        if !done {
            assert(perfect_list(limit@, p as nat, max_p as nat) =~= Seq::empty());
        }
        assert(perfect_pairs(results@) + Seq::<(nat, nat)>::empty() =~= perfect_pairs(results@));
        lemma_perfect_list_sound(limit@, 2, max_p as nat);
        assert forall|i: int| 0 <= i < results@.len() implies perfect_entry(
            (#[trigger] results@[i].0 as nat, results@[i].1@),
        ) by {
            assert(perfect_pairs(results@)[i] == (results@[i].0 as nat, results@[i].1@));
        }
        assert forall|p: nat|
            2 <= p && arith::is_prime(p as int) && arith::is_prime(mersenne(p) as int)
                && #[trigger] perfect_candidate(p) <= limit@ implies exists|i: int|
            0 <= i < results@.len() && results@[i].0 == p && results@[i].1@ == perfect_candidate(
                p,
            ) by {
            lemma_candidate_bound(p, limit@);
            lemma_perfect_list_complete(limit@, 2, max_p as nat, p);
            let l = perfect_list(limit@, 2, max_p as nat);
            let i = choose|i: int| 0 <= i < l.len() && l[i] == (p, perfect_candidate(p));
            assert(perfect_pairs(results@)[i] == (results@[i].0 as nat, results@[i].1@));
        }
        assert forall|n: nat|
            n > 0 && n % 2 == 0 && #[trigger] proper_divisor_sum(n) == n && n <= limit@ implies exists|
            i: int,
        | 0 <= i < results@.len() && results@[i].1@ == n by {
            let p = crate::even_perfect::lemma_even_perfect_is_euclid(n);
            assert(perfect_candidate(p) <= limit@);
        }
    }
    results
}

/// The candidates `2^(p-1) (2^p - 1)` grow with `p`.
proof fn lemma_candidate_increasing(a: nat, b: nat)
    requires
        1 <= a < b,
    ensures
        perfect_candidate(a) < perfect_candidate(b),
{
    lemma_two_pow_strict(a, b);
    if a < b {
        lemma_two_pow_strict((a - 1) as nat, (b - 1) as nat);
    }
    crate::bignum::lemma_two_pow_pos((a - 1) as nat);
    assert(two_pow(a) == 2 * two_pow((a - 1) as nat));
    let x1 = two_pow((a - 1) as nat);
    let x2 = two_pow((b - 1) as nat);
    let y1 = mersenne(a);
    let y2 = mersenne(b);
    assert(x1 * y1 < x2 * y2) by (nonlinear_arith)
        requires
            1 <= x1 < x2,
            1 <= y1 < y2,
    ;
}

/// A candidate at most `limit` has `p` within the search bound.
proof fn lemma_candidate_bound(p: nat, limit: nat)
    requires
        p >= 1,
        perfect_candidate(p) <= limit,
    ensures
        p <= bits_of(limit) / 2 + 3,
{
    let h = (p - 1) as nat;
    let x = two_pow(h);
    crate::bignum::lemma_two_pow_pos(h);
    assert(two_pow(p) == 2 * x);
    assert(x * x <= x * mersenne(p)) by (nonlinear_arith)
        requires
            x <= mersenne(p),
    ;
    lemma_two_pow_add(h, h);
    crate::bignum::lemma_bits_of(limit);
    let b = bits_of(limit);
    if h + h >= b {
        lemma_two_pow_ge(h + h, b);
    }
}

/// The search's list holds every perfect number `2^(p-1) (2^p - 1)` at most
/// `limit` with `p` and `2^p - 1` prime and `from <= p <= max_p`.
pub proof fn lemma_perfect_list_complete(limit: nat, from: nat, max_p: nat, p: nat)
    requires
        from >= 2,
        from <= p <= max_p,
        arith::is_prime(p as int),
        arith::is_prime(mersenne(p) as int),
        perfect_candidate(p) <= limit,
    ensures
        perfect_list(limit, from, max_p).contains((p, perfect_candidate(p))),
    decreases p - from,
{
    let l = perfect_list(limit, from, max_p);
    if arith::is_prime(from as int) && arith::is_prime(mersenne(from) as int) {
        if from < p {
            lemma_candidate_increasing(from, p);
        }
        let rest = perfect_list(limit, from + 1, max_p);
        assert(l == seq![(from, perfect_candidate(from))] + rest);
        if from == p {
            assert(l[0] == (p, perfect_candidate(p)));
        } else {
            lemma_perfect_list_complete(limit, from + 1, max_p, p);
            let i = choose|i: int| 0 <= i < rest.len() && rest[i] == (p, perfect_candidate(p));
            assert(l[i + 1] == rest[i]);
        }
    } else {
        lemma_perfect_list_complete(limit, from + 1, max_p, p);
    }
}

/// `(p, n)` is a perfect number from a Mersenne prime: `2^p - 1` is prime,
/// `n = 2^(p-1) * (2^p - 1)`, and the proper divisors of `n` sum to `n`.
pub open spec fn perfect_entry(e: (nat, nat)) -> bool {
    arith::is_prime(mersenne(e.0) as int) && e.1 == perfect_candidate(e.0) && proper_divisor_sum(
        e.1,
    ) == e.1
}

/// Every entry of the search's list is a perfect number from a Mersenne
/// prime: Euclid's construction gives a perfect number.
pub proof fn lemma_perfect_list_sound(limit: nat, from: nat, max_p: nat)
    requires
        from >= 2,
    ensures
        forall|i: int|
            0 <= i < perfect_list(limit, from, max_p).len() ==> perfect_entry(
                #[trigger] perfect_list(limit, from, max_p)[i],
            ),
    decreases max_p + 1 - from,
{
    if from <= max_p {
        lemma_perfect_list_sound(limit, from + 1, max_p);
        let rest = perfect_list(limit, from + 1, max_p);
        let l = perfect_list(limit, from, max_p);
        if arith::is_prime(from as int) && arith::is_prime(mersenne(from) as int)
            && perfect_candidate(from) <= limit {
            lemma_mersenne_prime_gives_perfect(from);
            assert(l == seq![(from, perfect_candidate(from))] + rest);
            assert forall|i: int| 0 <= i < l.len() implies perfect_entry(#[trigger] l[i]) by {
                if i > 0 {
                    assert(l[i] == rest[i - 1]);
                }
            }
        }
    }
}

/// The sum of the powers `2^i`, `i < j`, that are below `b`.
pub open spec fn pow_sum_below(b: nat, j: nat) -> nat
    decreases j,
{
    if j == 0 {
        0
    } else {
        let x = two_pow((j - 1) as nat);
        pow_sum_below(b, (j - 1) as nat) + if x < b {
            x
        } else {
            0
        }
    }
}

/// The sum of the multiples `2^i * q`, `i < j`, that are below `b`.
pub open spec fn mult_sum_below(b: nat, q: nat, j: nat) -> nat
    decreases j,
{
    if j == 0 {
        0
    } else {
        let x = two_pow((j - 1) as nat) * q;
        mult_sum_below(b, q, (j - 1) as nat) + if x < b {
            x
        } else {
            0
        }
    }
}

/// `b` is one of `2^i`, `i < j`.
pub open spec fn pow_hits(b: nat, j: nat) -> bool
    decreases j,
{
    j > 0 && (two_pow((j - 1) as nat) == b || pow_hits(b, (j - 1) as nat))
}

/// `b` is one of `2^i * q`, `i < j`.
pub open spec fn mult_hits(b: nat, q: nat, j: nat) -> bool
    decreases j,
{
    j > 0 && (two_pow((j - 1) as nat) * q == b || mult_hits(b, q, (j - 1) as nat))
}

pub(crate) proof fn lemma_two_pow_strict(i: nat, j: nat)
    requires
        i < j,
    ensures
        two_pow(i) < two_pow(j),
    decreases j,
{
    crate::bignum::lemma_two_pow_pos(i);
    if i + 1 < j {
        lemma_two_pow_strict(i, (j - 1) as nat);
    }
    crate::bignum::lemma_two_pow_pos((j - 1) as nat);
}

/// Moving the bound from `b` to `b + 1` adds `b` exactly when `b` is one of
/// the powers.
proof fn lemma_pow_sum_step(b: nat, j: nat)
    ensures
        pow_sum_below(b + 1, j) == pow_sum_below(b, j) + if pow_hits(b, j) {
            b
        } else {
            0
        },
    decreases j,
{
    if j > 0 {
        let m = (j - 1) as nat;
        lemma_pow_sum_step(b, m);
        if two_pow(m) == b && pow_hits(b, m) {
            assert forall|i: nat| i < m implies two_pow(i) != b by {
                lemma_two_pow_strict(i, m);
            }
            lemma_pow_hits_witness(b, m);
        }
    }
}

proof fn lemma_pow_hits_witness(b: nat, j: nat)
    requires
        pow_hits(b, j),
    ensures
        exists|i: nat| i < j && two_pow(i) == b,
    decreases j,
{
    let m = (j - 1) as nat;
    if two_pow(m) != b {
        lemma_pow_hits_witness(b, m);
    }
}

proof fn lemma_mult_hits_witness(b: nat, q: nat, j: nat)
    requires
        mult_hits(b, q, j),
    ensures
        exists|i: nat| i < j && two_pow(i) * q == b,
    decreases j,
{
    let m = (j - 1) as nat;
    if two_pow(m) * q != b {
        lemma_mult_hits_witness(b, q, m);
    }
}

/// The same for the multiples of `q >= 1`.
proof fn lemma_mult_sum_step(b: nat, q: nat, j: nat)
    requires
        q >= 1,
    ensures
        mult_sum_below(b + 1, q, j) == mult_sum_below(b, q, j) + if mult_hits(b, q, j) {
            b
        } else {
            0
        },
    decreases j,
{
    if j > 0 {
        let m = (j - 1) as nat;
        lemma_mult_sum_step(b, q, m);
        if two_pow(m) * q == b && mult_hits(b, q, m) {
            lemma_mult_hits_witness(b, q, m);
            let i = choose|i: nat| i < m && two_pow(i) * q == b;
            lemma_two_pow_strict(i, m);
            assert(two_pow(i) * q < two_pow(m) * q) by (nonlinear_arith)
                requires
                    two_pow(i) < two_pow(m),
                    q >= 1,
            ;
        }
    }
}

/// When every power is below `b`, their sum is `2^j - 1`.
proof fn lemma_pow_sum_full(b: nat, j: nat)
    requires
        two_pow(j) <= b,
    ensures
        pow_sum_below(b, j) == two_pow(j) - 1,
    decreases j,
{
    if j > 0 {
        let m = (j - 1) as nat;
        lemma_two_pow_strict(m, j);
        lemma_pow_sum_full(b, m);
    }
}

/// When every multiple `2^i * q`, `i < j`, is below `b`, their sum is
/// `q * (2^j - 1)`.
proof fn lemma_mult_sum_full(b: nat, q: nat, j: nat)
    requires
        q >= 1,
        two_pow(j) * q <= b,
    ensures
        mult_sum_below(b, q, j) == q * (two_pow(j) - 1),
    decreases j,
{
    crate::bignum::lemma_two_pow_pos(j);
    if j > 0 {
        let m = (j - 1) as nat;
        lemma_two_pow_strict(m, j);
        assert(two_pow(m) * q <= two_pow(j) * q) by (nonlinear_arith)
            requires
                two_pow(m) < two_pow(j),
                q >= 1,
        ;
        assert(two_pow(m) * q < two_pow(j) * q) by (nonlinear_arith)
            requires
                two_pow(m) < two_pow(j),
                q >= 1,
        ;
        lemma_mult_sum_full(b, q, m);
        crate::bignum::lemma_two_pow_pos(m);
        assert(q * (two_pow(m) - 1) + two_pow(m) * q == q * (two_pow(j) - 1)) by (nonlinear_arith)
            requires
                two_pow(j) == 2 * two_pow(m),
                two_pow(m) >= 1,
        ;
    } else {
        assert(q * 0 == 0);
    }
}

/// `2^(i + j) = 2^i * 2^j`.
pub(crate) proof fn lemma_two_pow_add(i: nat, j: nat)
    ensures
        two_pow(i + j) == two_pow(i) * two_pow(j),
    decreases j,
{
    if j > 0 {
        lemma_two_pow_add(i, (j - 1) as nat);
        assert(two_pow(i + j) == 2 * two_pow((i + j - 1) as nat));
        assert(2 * (two_pow(i) * two_pow((j - 1) as nat)) == two_pow(i) * (2 * two_pow(
            (j - 1) as nat,
        ))) by (nonlinear_arith);
    } else {
        assert(two_pow(i) * 1 == two_pow(i));
    }
}

/// A number at least 1 is a power of two times an odd number.
pub(crate) proof fn lemma_odd_part(d: nat) -> (vo: (nat, nat))
    requires
        d >= 1,
    ensures
        d == two_pow(vo.0) * vo.1,
        vo.1 % 2 == 1,
    decreases d,
{
    if d % 2 == 1 {
        assert(two_pow(0) == 1);
        assert(two_pow(0) * d == d);
        (0, d)
    } else {
        let h = d / 2;
        assert(h >= 1 && h < d);
        let (v, o) = lemma_odd_part(h);
        assert(two_pow(v + 1) == 2 * two_pow(v));
        assert(d == two_pow(v + 1) * o) by (nonlinear_arith)
            requires
                d == 2 * h,
                h == two_pow(v) * o,
                two_pow(v + 1) == 2 * two_pow(v),
        ;
        (v + 1, o)
    }
}

/// An odd divisor of `2^k * q` divides `q`.
pub(crate) proof fn lemma_odd_divisor(o: nat, k: nat, q: nat)
    requires
        o % 2 == 1,
        (two_pow(k) * q) % o == 0,
    ensures
        q % o == 0,
    decreases k,
{
    if k > 0 {
        let m = (k - 1) as nat;
        assert(two_pow(k) * q == 2 * (two_pow(m) * q)) by (nonlinear_arith)
            requires
                two_pow(k) == 2 * two_pow(m),
        ;
        twin_primes::lemma_odd_divides_double((two_pow(m) * q) as int, o as int);
        lemma_odd_divisor(o, m, q);
    } else {
        assert(two_pow(0) == 1);
        assert(two_pow(0) * q == q) by (nonlinear_arith)
            requires
                two_pow(0) == 1,
        ;
    }
}

/// `2^i = 2^l * q` with `q` odd forces `q = 1`.
proof fn lemma_power_not_odd_multiple(i: nat, l: nat, q: nat)
    requires
        q % 2 == 1,
        two_pow(i) == two_pow(l) * q,
    ensures
        q == 1,
    decreases l,
{
    if l == 0 {
        assert(two_pow(0) == 1);
        assert(two_pow(0) * q == q) by (nonlinear_arith)
            requires
                two_pow(0) == 1,
        ;
        if i > 0 {
            assert(two_pow(i) == 2 * two_pow((i - 1) as nat));
        }
    } else {
        let m = (l - 1) as nat;
        assert(two_pow(l) * q == 2 * (two_pow(m) * q)) by (nonlinear_arith)
            requires
                two_pow(l) == 2 * two_pow(m),
        ;
        if i == 0 {
            assert(two_pow(0) == 1);
        } else {
            assert(two_pow(i) == 2 * two_pow((i - 1) as nat));
            lemma_power_not_odd_multiple((i - 1) as nat, m, q);
        }
    }
}

proof fn lemma_pow_hits_of(v: nat, j: nat)
    requires
        v < j,
    ensures
        pow_hits(two_pow(v), j),
    decreases j,
{
    if v + 1 < j {
        lemma_pow_hits_of(v, (j - 1) as nat);
    }
}

proof fn lemma_mult_hits_of(v: nat, q: nat, j: nat)
    requires
        v < j,
    ensures
        mult_hits(two_pow(v) * q, q, j),
    decreases j,
{
    if v + 1 < j {
        lemma_mult_hits_of(v, q, (j - 1) as nat);
    }
}

/// The divisors of `2^k * q`, for an odd prime `q`, are the `2^i` and the
/// `2^i * q` with `i <= k`, and no number is both.
proof fn lemma_divisors_of_candidate(k: nat, q: nat, d: nat)
    requires
        arith::is_prime(q as int),
        q % 2 == 1,
        d >= 1,
    ensures
        (two_pow(k) * q) % d == 0 <==> (pow_hits(d, k + 1) || mult_hits(d, q, k + 1)),
        !(pow_hits(d, k + 1) && mult_hits(d, q, k + 1)),
{
    let n = two_pow(k) * q;
    crate::bignum::lemma_two_pow_pos(k);
    if pow_hits(d, k + 1) {
        lemma_pow_hits_witness(d, k + 1);
        let i = choose|i: nat| i < k + 1 && two_pow(i) == d;
        lemma_two_pow_add(i, (k - i) as nat);
        assert(n == d * (two_pow((k - i) as nat) * q)) by (nonlinear_arith)
            requires
                n == two_pow(k) * q,
                two_pow(k) == two_pow(i) * two_pow((k - i) as nat),
                d == two_pow(i),
        ;
        vstd::arithmetic::div_mod::lemma_mod_multiples_basic(
            (two_pow((k - i) as nat) * q) as int,
            d as int,
        );
        assert(n == (two_pow((k - i) as nat) * q) * d) by (nonlinear_arith)
            requires
                n == d * (two_pow((k - i) as nat) * q),
        ;
        if mult_hits(d, q, k + 1) {
            lemma_mult_hits_witness(d, q, k + 1);
            let l = choose|l: nat| l < k + 1 && two_pow(l) * q == d;
            lemma_power_not_odd_multiple(i, l, q);
        }
    }
    if mult_hits(d, q, k + 1) {
        lemma_mult_hits_witness(d, q, k + 1);
        let i = choose|i: nat| i < k + 1 && two_pow(i) * q == d;
        lemma_two_pow_add(i, (k - i) as nat);
        assert(n == (two_pow((k - i) as nat)) * d) by (nonlinear_arith)
            requires
                n == two_pow(k) * q,
                two_pow(k) == two_pow(i) * two_pow((k - i) as nat),
                d == two_pow(i) * q,
        ;
        vstd::arithmetic::div_mod::lemma_mod_multiples_basic(
            two_pow((k - i) as nat) as int,
            d as int,
        );
    }
    if n % d == 0 {
        let (v, o) = lemma_odd_part(d);
        crate::bignum::lemma_two_pow_pos(v);
        assert(d % o == 0) by {
            vstd::arithmetic::div_mod::lemma_mod_multiples_basic(two_pow(v) as int, o as int);
        }
        assert(o >= 1);
        arith::lemma_divides_trans(o as int, d as int, n as int);
        lemma_odd_divisor(o, k, q);
        if o != 1 && o != q {
            if o < q {
                assert(q % o != 0);
            } else {
                vstd::arithmetic::div_mod::lemma_small_mod(q, o);
            }
        }
        if v > k {
            vstd::arithmetic::div_mod::lemma_fundamental_div_mod(n as int, d as int);
            let t = n / d;
            lemma_two_pow_add(k, (v - k) as nat);
            let e = two_pow((v - k) as nat);
            assert(two_pow(k) * q == two_pow(k) * (e * o * t)) by (nonlinear_arith)
                requires
                    n == two_pow(k) * q,
                    n == d * t + 0,
                    d == two_pow(v) * o,
                    two_pow(v) == two_pow(k) * e,
            ;
            vstd::arithmetic::mul::lemma_mul_equality_converse(
                two_pow(k) as int,
                q as int,
                (e * o * t) as int,
            );
            assert(e == 2 * two_pow((v - k - 1) as nat));
            assert(q == 2 * (two_pow((v - k - 1) as nat) * o * t)) by (nonlinear_arith)
                requires
                    q == e * o * t,
                    e == 2 * two_pow((v - k - 1) as nat),
            ;
        }
        if o == 1 {
            assert(d == two_pow(v)) by (nonlinear_arith)
                requires
                    d == two_pow(v) * o,
                    o == 1,
            ;
            lemma_pow_hits_of(v, k + 1);
        } else {
            lemma_mult_hits_of(v, q, k + 1);
        }
    }
}

/// The divisor sum of `2^k * q` below any bound `b`, as the two sums.
proof fn lemma_candidate_divisor_sum(k: nat, q: nat, b: nat)
    requires
        arith::is_prime(q as int),
        q % 2 == 1,
    ensures
        divisor_sum_below(two_pow(k) * q, b) == pow_sum_below(b, k + 1) + mult_sum_below(
            b,
            q,
            k + 1,
        ),
    decreases b,
{
    let n = two_pow(k) * q;
    if b == 0 {
        lemma_pow_sum_zero(k + 1);
        lemma_mult_sum_zero(q, k + 1);
    } else {
        let c = (b - 1) as nat;
        lemma_candidate_divisor_sum(k, q, c);
        lemma_pow_sum_step(c, k + 1);
        lemma_mult_sum_step(c, q, k + 1);
        if c >= 1 {
            lemma_divisors_of_candidate(k, q, c);
        } else {
            assert(!pow_hits(0, k + 1)) by {
                if pow_hits(0, k + 1) {
                    lemma_pow_hits_witness(0, k + 1);
                    let i = choose|i: nat| i < k + 1 && two_pow(i) == 0;
                    crate::bignum::lemma_two_pow_pos(i);
                }
            }
            assert(!mult_hits(0, q, k + 1)) by {
                if mult_hits(0, q, k + 1) {
                    lemma_mult_hits_witness(0, q, k + 1);
                    let i = choose|i: nat| i < k + 1 && two_pow(i) * q == 0;
                    crate::bignum::lemma_two_pow_pos(i);
                    assert(two_pow(i) * q >= 1) by (nonlinear_arith)
                        requires
                            two_pow(i) >= 1,
                            q >= 2,
                    ;
                }
            }
        }
    }
}

proof fn lemma_pow_sum_zero(j: nat)
    ensures
        pow_sum_below(0, j) == 0,
    decreases j,
{
    if j > 0 {
        lemma_pow_sum_zero((j - 1) as nat);
    }
}

proof fn lemma_mult_sum_zero(q: nat, j: nat)
    ensures
        mult_sum_below(0, q, j) == 0,
    decreases j,
{
    if j > 0 {
        lemma_mult_sum_zero(q, (j - 1) as nat);
    }
}

/// Euclid: when the Mersenne number `2^p - 1` is prime, the candidate
/// `2^(p-1) * (2^p - 1)` is perfect: its proper divisors sum to itself.
pub proof fn lemma_mersenne_prime_gives_perfect(p: nat)
    requires
        p >= 2,
        arith::is_prime(mersenne(p) as int),
    ensures
        proper_divisor_sum(perfect_candidate(p)) == perfect_candidate(p),
{
    let k = (p - 1) as nat;
    let q = mersenne(p);
    crate::bignum::lemma_two_pow_pos(k);
    assert(two_pow(p) == 2 * two_pow(k));
    assert(q == 2 * two_pow(k) - 1);
    assert(q % 2 == 1);
    assert(q >= 3);
    let n = two_pow(k) * q;
    assert(n == perfect_candidate(p));
    lemma_candidate_divisor_sum(k, q, n);
    assert(two_pow(k + 1) <= n) by (nonlinear_arith)
        requires
            n == two_pow(k) * q,
            q >= 3,
            two_pow(k + 1) == 2 * two_pow(k),
    ;
    lemma_pow_sum_full(n, k + 1);
    assert(two_pow(k) * q <= n);
    lemma_mult_sum_full(n, q, k);
    assert(mult_sum_below(n, q, k + 1) == mult_sum_below(n, q, k));
    assert((two_pow(k + 1) - 1) + q * (two_pow(k) - 1) == n) by (nonlinear_arith)
        requires
            n == two_pow(k) * q,
            q == 2 * two_pow(k) - 1,
            two_pow(k + 1) == 2 * two_pow(k),
            two_pow(k) >= 1,
    ;
}

} // verus!
