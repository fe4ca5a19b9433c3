//! Euler's number e from its Taylor series, summed by binary splitting.
use crate::bignum::{fixed_point_text, BigNat};
use crate::digits;
use crate::prime_powers::factorial;
use vstd::arithmetic::div_mod::*;
use vstd::prelude::*;
use vstd::string::StringExecFns;

verus! {

/// Format an integer with thousands separators (e.g. 1_000_000 -> "1,000,000").
pub fn fmt_int(n: usize) -> (s: String)
    ensures
        s@ == digits::with_commas(n as nat),
{
    digits::fmt_int(n as u64)
}

/// The percentage of `completed` out of `n`, 100 when `n` is 0.
pub open spec fn series_percent(completed: nat, n: nat) -> nat {
    if n == 0 {
        100
    } else {
        completed * 100 / n
    }
}

/// The status line of the series computation: the percentage right-aligned
/// in three columns, then the completed and total term counts.
pub fn format_series_progress(completed: u64, n: u64) -> (s: String)
    requires
        completed * 100 <= u64::MAX,
        completed <= usize::MAX,
        n <= usize::MAX,
    ensures
        s@ == "  Computing series:  "@ + digits::pad_left(
            digits::decimal(series_percent(completed as nat, n as nat)),
            3,
        ) + "%  ("@ + digits::with_commas(completed as nat) + " / "@ + digits::with_commas(
            n as nat,
        ) + " terms)   "@,
{
    let pct = match (completed * 100).checked_div(n) {
        Some(q) => q,
        None => 100,
    };
    let mut s = String::from_str("  Computing series:  ");
    digits::push_padded3(&mut s, pct);
    s.append("%  (");
    let done = fmt_int(completed as usize);
    s.append(done.as_str());
    s.append(" / ");
    let total = fmt_int(n as usize);
    s.append(total.as_str());
    s.append(" terms)   ");
    s
}


/// Below this range size, the two halves of a split are computed one after
/// the other rather than in parallel.
pub const BS_PAR_THRESHOLD: u64 = 512;

/// The `(P, Q)` accumulators of a range `[a, b)` of the Taylor series of e:
/// over the full range `[0, N)`, `e ≈ Q / P`.
pub struct Pq {
    pub p: BigNat,
    pub q: BigNat,
}

/// Term `k` contributes `p_k = q_k = k + 1`, except `p_0 = q_0 = 1`.
pub open spec fn leaf_value(k: nat) -> nat {
    if k == 0 {
        1
    } else {
        k + 1
    }
}

/// `P(a, b)`: the product of the `p_k` for `k` in `[a, b)`.
pub open spec fn series_p(a: nat, b: nat) -> nat
    decreases b,
{
    if b <= a {
        1
    } else {
        series_p(a, (b - 1) as nat) * leaf_value((b - 1) as nat)
    }
}

/// `Q(a, b)`: extending a range by one term `k` maps `Q` to `Q * p_k + q_k`.
pub open spec fn series_q(a: nat, b: nat) -> nat
    decreases b,
{
    if b <= a {
        0
    } else {
        series_q(a, (b - 1) as nat) * leaf_value((b - 1) as nat) + leaf_value((b - 1) as nat)
    }
}

/// Splitting a range anywhere: `P(a, c) = P(a, b) * P(b, c)` and
/// `Q(a, c) = Q(a, b) * P(b, c) + Q(b, c)`, so binary splitting can cut a
/// range at any point and merge the halves.
pub proof fn lemma_series_split(a: nat, b: nat, c: nat)
    requires
        a <= b <= c,
    ensures
        series_p(a, c) == series_p(a, b) * series_p(b, c),
        series_q(a, c) == series_q(a, b) * series_p(b, c) + series_q(b, c),
    decreases c,
{
    if c > b {
        let k = (c - 1) as nat;
        lemma_series_split(a, b, k);
        let v = leaf_value(k);
        assert(series_p(a, c) == series_p(a, k) * v);
        assert(series_p(b, c) == series_p(b, k) * v);
        assert(series_q(a, c) == series_q(a, k) * v + v);
        assert(series_q(b, c) == series_q(b, k) * v + v);
        assert(series_p(a, k) * v == series_p(a, b) * (series_p(b, k) * v)) by (nonlinear_arith)
            requires series_p(a, k) == series_p(a, b) * series_p(b, k);
        assert(series_q(a, k) * v + v == series_q(a, b) * (series_p(b, k) * v) + (series_q(b, k) * v
            + v)) by (nonlinear_arith)
            requires series_q(a, k) == series_q(a, b) * series_p(b, k) + series_q(b, k);
    } else {
        assert(series_p(b, c) == 1);
        assert(series_q(b, c) == 0);
        assert(series_p(a, b) * 1 == series_p(a, b));
        assert(series_q(a, b) * 1 + 0 == series_q(a, b));
    }
}

/// The sum of `b! / k!` over `k` in `[a, c)`: over `[0, n)` with `b = n`,
/// `n!` times the Taylor partial sum `1/0! + 1/1! + ... + 1/(n-1)!` of e.
pub open spec fn taylor_numerator(a: nat, c: nat, b: nat) -> nat
    decreases c,
{
    if c <= a {
        0
    } else {
        taylor_numerator(a, (c - 1) as nat, b) + factorial(b) / factorial((c - 1) as nat)
    }
}

pub(crate) proof fn lemma_factorial_pos(n: nat)
    ensures
        factorial(n) >= 1,
    decreases n,
{
    if n > 0 {
        lemma_factorial_pos((n - 1) as nat);
        assert(n * factorial((n - 1) as nat) >= 1) by (nonlinear_arith)
            requires
                n >= 1,
                factorial((n - 1) as nat) >= 1,
        ;
    }
}

/// The product of the integers in `(k, b]`.
pub open spec fn falling_product(k: nat, b: nat) -> nat
    decreases b,
{
    if b <= k {
        1
    } else {
        b * falling_product(k, (b - 1) as nat)
    }
}

proof fn lemma_factorial_split(k: nat, b: nat)
    requires
        k <= b,
    ensures
        factorial(b) == factorial(k) * falling_product(k, b),
    decreases b,
{
    if b > k {
        let c = (b - 1) as nat;
        lemma_factorial_split(k, c);
        assert(b * (factorial(k) * falling_product(k, c)) == factorial(k) * (b * falling_product(
            k,
            c,
        ))) by (nonlinear_arith);
    } else {
        assert(factorial(k) * 1 == factorial(k));
    }
}

/// `k!` divides `b!` for `k <= b`, with quotient the product of `(k, b]`.
proof fn lemma_factorial_quotient(k: nat, b: nat)
    requires
        k <= b,
    ensures
        factorial(b) % factorial(k) == 0,
        factorial(b) / factorial(k) == falling_product(k, b),
        factorial(b + 1) / factorial(k) == (b + 1) * (factorial(b) / factorial(k)),
{
    lemma_factorial_pos(k);
    lemma_factorial_split(k, b);
    lemma_factorial_split(k, b + 1);
    let fk = factorial(k) as int;
    lemma_mod_multiples_basic(falling_product(k, b) as int, fk);
    assert(falling_product(k, b) * fk == fk * falling_product(k, b)) by (nonlinear_arith);
    lemma_div_multiples_vanish(falling_product(k, b) as int, fk);
    lemma_div_multiples_vanish(falling_product(k, b + 1) as int, fk);
    assert(falling_product(k, b + 1) == (b + 1) * falling_product(k, b));
}

proof fn lemma_taylor_scale(a: nat, c: nat, b: nat)
    requires
        c <= b,
    ensures
        taylor_numerator(a, c, b + 1) == (b + 1) * taylor_numerator(a, c, b),
    decreases c,
{
    if c > a {
        let k = (c - 1) as nat;
        lemma_taylor_scale(a, k, b);
        lemma_factorial_quotient(k, b);
        let x = taylor_numerator(a, k, b);
        let y = factorial(b) / factorial(k);
        assert((b + 1) * x + (b + 1) * y == (b + 1) * (x + y)) by (nonlinear_arith);
        assert(taylor_numerator(a, c, b + 1) == taylor_numerator(a, k, b + 1) + factorial(b + 1)
            / factorial(k));
        assert(taylor_numerator(a, c, b) == x + y);
    } else {
        assert((b + 1) * 0 == 0);
    }
}

/// The accumulators are those of the Taylor series of e: over `[a, b)`,
/// `P = b! / a!` and `Q` is the sum of `b! / k!` for `k` in `[a, b)`, so
/// that over `[0, n)`, `P = n!` and `Q / P = 1/0! + 1/1! + ... + 1/(n-1)!`.
pub proof fn lemma_series_is_taylor(a: nat, b: nat)
    requires
        a <= b,
    ensures
        factorial(b) % factorial(a) == 0,
        series_p(a, b) == factorial(b) / factorial(a),
        series_q(a, b) == taylor_numerator(a, b, b),
    decreases b,
{
    lemma_factorial_pos(a);
    lemma_factorial_quotient(a, b);
    if b > a {
        let c = (b - 1) as nat;
        lemma_series_is_taylor(a, c);
        lemma_factorial_quotient(a, c);
        lemma_factorial_quotient(c, c);
        lemma_taylor_scale(a, c, c);
        let v = leaf_value(c);
        assert(v == c + 1);
        let p = series_p(a, c);
        let q = series_q(a, c);
        assert(p * v == v * p) by (nonlinear_arith);
        assert(q * v + v == v * q + v) by (nonlinear_arith);
        assert(factorial(b) / factorial(c) == (c + 1) * 1);
    }
}

/// The accumulators of the single term `a`.
pub fn bs_leaf(a: u64) -> (r: Pq)
    requires
        a < u64::MAX,
    ensures
        r.p@ == series_p(a as nat, a as nat + 1),
        r.q@ == series_q(a as nat, a as nat + 1),
        r.p@ == factorial(a as nat + 1) / factorial(a as nat),
        r.q@ == taylor_numerator(a as nat, a as nat + 1, a as nat + 1),
{
    proof {
        lemma_series_is_taylor(a as nat, a as nat + 1);
    }
    let v: u64 = if a == 0 {
        1
    } else {
        a + 1
    };
    proof {
        assert(series_p(a as nat, a as nat) == 1);
        assert(series_q(a as nat, a as nat) == 0);
        assert(series_p(a as nat, a as nat + 1) == 1 * leaf_value(a as nat));
        assert(series_q(a as nat, a as nat + 1) == 0 * leaf_value(a as nat) + leaf_value(a as nat));
    }
    Pq { p: BigNat::from_u64(v), q: BigNat::from_u64(v) }
}

/// Combine two adjacent ranges `[a, m)` and `[m, b)`:
/// `P(a, b) = P(a, m) * P(m, b)`, `Q(a, b) = Q(a, m) * P(m, b) + Q(m, b)`.
pub fn bs_merge(l: Pq, r: Pq) -> (m: Pq)
    ensures
        m.p@ == l.p@ * r.p@,
        m.q@ == l.q@ * r.p@ + r.q@,
{
    Pq { p: l.p.mul(&r.p), q: l.q.mul(&r.p).add(&r.q) }
}

/// The two halves `[a, m)` and `[m, b)` computed in parallel with
/// `rayon::join`, which runs both closures (each a call of `bs`) and
/// returns their results in order: the contract claims of each half what
/// `bs` promises for it.
#[verifier::external_body]
fn bs_halves_in_parallel(a: u64, m: u64, b: u64) -> (r: (Pq, Pq))
    requires
        a < m < b,
    ensures
        r.0.p@ == series_p(a as nat, m as nat),
        r.0.q@ == series_q(a as nat, m as nat),
        r.1.p@ == series_p(m as nat, b as nat),
        r.1.q@ == series_q(m as nat, b as nat),
{
    rayon::join(|| bs(a, m), || bs(m, b))
}

/// Binary splitting of the range `[a, b)`: halves are computed recursively
/// (in parallel above `BS_PAR_THRESHOLD` terms) and merged.
pub fn bs(a: u64, b: u64) -> (r: Pq)
    requires
        a < b,
    ensures
        r.p@ == series_p(a as nat, b as nat),
        r.q@ == series_q(a as nat, b as nat),
        r.p@ == factorial(b as nat) / factorial(a as nat),
        r.q@ == taylor_numerator(a as nat, b as nat, b as nat),
    decreases b - a,
{
    proof {
        lemma_series_is_taylor(a as nat, b as nat);
    }
    if b - a == 1 {
        return bs_leaf(a);
    }
    let m = a + (b - a) / 2;
    proof {
        lemma_series_split(a as nat, m as nat, b as nat);
    }
    if b - a <= BS_PAR_THRESHOLD {
        let l = bs(a, m);
        let r = bs(m, b);
        return bs_merge(l, r);
    }
    let (l, r) = bs_halves_in_parallel(a, m, b);
    bs_merge(l, r)
}

/// The decimal text of e with exactly `digits` places after the point,
/// from the text `raw` that an arbitrary-precision float prints for it in
/// base 10 (with a few digits to spare): the exponent marker and what
/// follows it are dropped, and the places after the point are cut or padded
/// with zeros.
pub fn e_to_string(raw: &str, digits: usize) -> (s: String)
    requires
        raw.is_ascii(),
        raw@.len() + digits + 1 <= usize::MAX,
    ensures
        s@ == digits::fixed_decimals_text(raw@, digits as nat),
{
    digits::fixed_decimals(raw, digits)
}

/// `P(a, b)` is positive.
proof fn lemma_series_p_pos(a: nat, b: nat)
    ensures
        series_p(a, b) > 0,
    decreases b,
{
    if b > a {
        lemma_series_p_pos(a, (b - 1) as nat);
        let x = series_p(a, (b - 1) as nat);
        let y = leaf_value((b - 1) as nat);
        assert(x * y > 0) by (nonlinear_arith)
            requires
                x > 0,
                y > 0,
        ;
    }
}

/// e from the first `n_terms` terms of its series, `Q(0, n) / P(0, n)`,
/// with exactly `digits` places after the point, cut after the last one:
/// the Taylor partial sum `1/0! + 1/1! + ... + 1/(n-1)!`, written as
/// `(sum of n!/j!) / n!`.
pub fn e_text(n_terms: u64, digits: u32) -> (s: String)
    requires
        n_terms >= 1,
    ensures
        s@ == fixed_point_text(series_q(0, n_terms as nat), series_p(0, n_terms as nat), digits as nat),
        s@ == fixed_point_text(
            taylor_numerator(0, n_terms as nat, n_terms as nat),
            factorial(n_terms as nat),
            digits as nat,
        ),
{
    proof {
        lemma_series_is_taylor(0, n_terms as nat);
        assert(factorial(0) == 1);
        vstd::arithmetic::div_mod::lemma_div_basics_2(factorial(n_terms as nat) as int);
    }
    let pq = bs(0, n_terms);
    proof {
        lemma_series_p_pos(0, n_terms as nat);
    }
    pq.q.to_fixed_point(&pq.p, digits)
}

} // verus!
