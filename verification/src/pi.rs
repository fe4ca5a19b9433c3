//! Pi from the Chudnovsky series, summed by binary splitting.
use crate::bignum::{fixed_point_text, BigInt, BigNat};
use crate::digits;
use crate::prime_powers::factorial;
use crate::quadratic::ipow;
use vstd::arithmetic::div_mod::*;
use vstd::prelude::*;
use vstd::string::StringExecFns;

verus! {

/// Format an integer with thousands separators (e.g. 1_000_000 -> "1,000,000").
pub fn fmt_int(n: usize) -> (s: String)
    ensures
        s@ == digits::with_commas(n as nat),
{
    digits::fmt_int(n as u64)
}

/// The percentage of `completed` out of `n`, 100 when `n` is 0.
pub open spec fn series_percent(completed: nat, n: nat) -> nat {
    if n == 0 {
        100
    } else {
        completed * 100 / n
    }
}

/// The status line of the series computation: the percentage right-aligned
/// in three columns, then the completed and total term counts.
pub fn format_series_progress(completed: u64, n: u64) -> (s: String)
    requires
        completed * 100 <= u64::MAX,
        completed <= usize::MAX,
        n <= usize::MAX,
    ensures
        s@ == "  Computing series:  "@ + digits::pad_left(
            digits::decimal(series_percent(completed as nat, n as nat)),
            3,
        ) + "%  ("@ + digits::with_commas(completed as nat) + " / "@ + digits::with_commas(
            n as nat,
        ) + " terms)   "@,
{
    let pct = match (completed * 100).checked_div(n) {
        Some(q) => q,
        None => 100,
    };
    let mut s = String::from_str("  Computing series:  ");
    digits::push_padded3(&mut s, pct);
    s.append("%  (");
    let done = fmt_int(completed as usize);
    s.append(done.as_str());
    s.append(" / ");
    let total = fmt_int(n as usize);
    s.append(total.as_str());
    s.append(" terms)   ");
    s
}


pub const CHU_A: u64 = 13591409;

pub const CHU_B: u64 = 545140134;

/// 640320^3 / 24 = 10_939_058_860_032_000 (fits in u64).
pub const CHU_C3_24: u64 = 10939058860032000;

/// Below this range size, the two halves of a split are computed one after
/// the other rather than in parallel.
pub const BS_PAR_THRESHOLD: u64 = 512;

/// The `(P, Q, T)` accumulators of a range `[a, b)` of the Chudnovsky series.
pub struct Pqt {
    pub p: BigNat,
    pub q: BigNat,
    pub t: BigInt,
}

/// `p_k`: 1 for `k == 0`, else `(6k - 5)(2k - 1)(6k - 1)`.
pub open spec fn leaf_p(k: nat) -> nat {
    if k == 0 {
        1
    } else {
        ((6 * k - 5) * (2 * k - 1) * (6 * k - 1)) as nat
    }
}

/// `q_k`: 1 for `k == 0`, else `k^3 * 640320^3 / 24`.
pub open spec fn leaf_q(k: nat) -> nat {
    if k == 0 {
        1
    } else {
        (k * k * k * CHU_C3_24) as nat
    }
}

/// `t_k`: `A` for `k == 0`, else `(-1)^k * p_k * (A + B k)`.
pub open spec fn leaf_t(k: nat) -> int {
    if k == 0 {
        CHU_A as int
    } else if k % 2 == 1 {
        -(leaf_p(k) * (CHU_A + CHU_B * k))
    } else {
        leaf_p(k) * (CHU_A + CHU_B * k)
    }
}

/// `P(a, b)`: the product of the `p_k` for `k` in `[a, b)`.
pub open spec fn series_p(a: nat, b: nat) -> nat
    decreases b,
{
    if b <= a {
        1
    } else {
        series_p(a, (b - 1) as nat) * leaf_p((b - 1) as nat)
    }
}

/// `Q(a, b)`: the product of the `q_k` for `k` in `[a, b)`.
pub open spec fn series_q(a: nat, b: nat) -> nat
    decreases b,
{
    if b <= a {
        1
    } else {
        series_q(a, (b - 1) as nat) * leaf_q((b - 1) as nat)
    }
}

/// `T(a, b)`: extending a range by one term `k` maps `T` to
/// `q_k * T + P * t_k`.
pub open spec fn series_t(a: nat, b: nat) -> int
    decreases b,
{
    if b <= a {
        0
    } else {
        let k = (b - 1) as nat;
        leaf_q(k) * series_t(a, k) + series_p(a, k) * leaf_t(k)
    }
}

/// The ring identity behind one step of `lemma_series_split`.
proof fn lemma_t_step(
    t_ak: int,
    t_ab: int,
    t_bk: int,
    p_ak: int,
    p_ab: int,
    p_bk: int,
    q_bk: int,
    qk: int,
    tk: int,
)
    requires
        t_ak == q_bk * t_ab + p_ab * t_bk,
        p_ak == p_ab * p_bk,
    ensures
        qk * t_ak + p_ak * tk == (q_bk * qk) * t_ab + p_ab * (qk * t_bk + p_bk * tk),
{
    assert(qk * t_ak == qk * (q_bk * t_ab) + qk * (p_ab * t_bk)) by (nonlinear_arith)
        requires
            t_ak == q_bk * t_ab + p_ab * t_bk,
    ;
    assert(qk * (q_bk * t_ab) == (q_bk * qk) * t_ab) by (nonlinear_arith);
    assert(qk * (p_ab * t_bk) == p_ab * (qk * t_bk)) by (nonlinear_arith);
    assert(p_ak * tk == p_ab * (p_bk * tk)) by (nonlinear_arith)
        requires
            p_ak == p_ab * p_bk,
    ;
    assert(p_ab * (qk * t_bk + p_bk * tk) == p_ab * (qk * t_bk) + p_ab * (p_bk * tk)) by (
    nonlinear_arith);
}

/// Splitting a range anywhere: `P` and `Q` multiply, and
/// `T(a, c) = Q(b, c) * T(a, b) + P(a, b) * T(b, c)`.
pub proof fn lemma_series_split(a: nat, b: nat, c: nat)
    requires
        a <= b <= c,
    ensures
        series_p(a, c) == series_p(a, b) * series_p(b, c),
        series_q(a, c) == series_q(a, b) * series_q(b, c),
        series_t(a, c) == series_q(b, c) * series_t(a, b) + series_p(a, b) * series_t(b, c),
    decreases c,
{
    if c > b {
        let k = (c - 1) as nat;
        lemma_series_split(a, b, k);
        let pk = leaf_p(k);
        let qk = leaf_q(k);
        let tk = leaf_t(k);
        assert(series_p(a, k) * pk == series_p(a, b) * (series_p(b, k) * pk)) by (nonlinear_arith)
            requires series_p(a, k) == series_p(a, b) * series_p(b, k);
        assert(series_q(a, k) * qk == series_q(a, b) * (series_q(b, k) * qk)) by (nonlinear_arith)
            requires series_q(a, k) == series_q(a, b) * series_q(b, k);
        lemma_t_step(
            series_t(a, k),
            series_t(a, b),
            series_t(b, k),
            series_p(a, k) as int,
            series_p(a, b) as int,
            series_p(b, k) as int,
            series_q(b, k) as int,
            qk as int,
            tk,
        );
    } else {
        assert(series_p(a, b) * 1 == series_p(a, b));
        assert(series_q(a, b) * 1 == series_q(a, b));
        assert(series_t(b, c) == 0);
        assert(1 * series_t(a, b) + series_p(a, b) * 0 == series_t(a, b)) by (nonlinear_arith);
    }
}

proof fn lemma_leaf_p_bound(k: nat)
    requires
        k >= 1,
    ensures
        1 <= leaf_p(k) <= 72 * (k * k * k),
{
    let x = 6 * k - 5;
    let y = 2 * k - 1;
    let z = 6 * k - 1;
    assert(1 <= x * y * z <= 72 * (k * k * k)) by (nonlinear_arith)
        requires
            1 <= x <= 6 * k,
            1 <= y <= 2 * k,
            1 <= z <= 6 * k,
            x == 6 * k - 5,
            y == 2 * k - 1,
            z == 6 * k - 1,
    ;
}

proof fn lemma_series_p_pos(n: nat)
    ensures
        series_p(0, n) >= 1,
    decreases n,
{
    if n > 0 {
        let k = (n - 1) as nat;
        lemma_series_p_pos(k);
        if k >= 1 {
            lemma_leaf_p_bound(k);
        }
        assert(series_p(0, k) * leaf_p(k) >= 1) by (nonlinear_arith)
            requires
                series_p(0, k) >= 1,
                leaf_p(k) >= 1,
        ;
    }
}

/// The numerator of the partial sums stays positive: each term is far
/// smaller than the one before it, so the alternating terms never bring
/// the sum to 0. In numbers, `50 T(0, n) >= P(0, n) (A + B n)`.
pub proof fn lemma_series_t_positive(n: nat)
    requires
        n >= 1,
    ensures
        50 * series_t(0, n) >= series_p(0, n) * (CHU_A + CHU_B * n),
        series_t(0, n) > 0,
    decreases n,
{
    lemma_series_p_pos(n);
    if n == 1 {
        assert(series_t(0, 0) == 0);
        assert(series_p(0, 0) == 1);
        assert(leaf_p(0) == 1);
        assert(series_p(0, 1) == 1);
        assert(series_t(0, 1) == leaf_q(0) * 0 + 1 * leaf_t(0));
    } else {
        let k = (n - 1) as nat;
        lemma_series_t_positive(k);
        lemma_series_p_pos(k);
        lemma_leaf_p_bound(k);
        let t = series_t(0, k);
        let pp = series_p(0, k) as int;
        let q = leaf_q(k) as int;
        let pk = leaf_p(k) as int;
        let l = CHU_A + CHU_B * k;
        let l1 = CHU_A + CHU_B * n;
        let tk = leaf_t(k);
        assert(tk >= -(pk * l)) by {
            assert(pk * l >= 0) by (nonlinear_arith)
                requires
                    pk >= 1,
                    l >= 0,
            ;
        }
        assert(q == k * k * k * CHU_C3_24);
        let kc = k * k * k;
        assert(kc >= 1) by (nonlinear_arith)
            requires
                k >= 1,
                kc == k * k * k,
        ;
        assert(q >= 92 * pk) by (nonlinear_arith)
            requires
                q == kc * 10939058860032000,
                pk <= 72 * kc,
                kc >= 1,
        ;
        assert(l1 <= 42 * l);
        assert(series_t(0, n) == q * t + pp * tk);
        assert(series_p(0, n) == pp * pk);
        assert(50 * (q * t) >= q * (pp * l)) by (nonlinear_arith)
            requires
                50 * t >= pp * l,
                q >= 0,
        ;
        assert(50 * (pp * tk) >= -(50 * (pp * (pk * l)))) by (nonlinear_arith)
            requires
                tk >= -(pk * l),
                pp >= 1,
        ;
        assert(l * (q - 50 * pk) >= pk * l1) by (nonlinear_arith)
            requires
                q >= 92 * pk,
                l1 <= 42 * l,
                l >= 0,
                pk >= 1,
        ;
        assert(q * (pp * l) - 50 * (pp * (pk * l)) >= (pp * pk) * l1) by (nonlinear_arith)
            requires
                l * (q - 50 * pk) >= pk * l1,
                pp >= 1,
        ;
        assert((pp * pk) * l1 > 0) by (nonlinear_arith)
            requires
                pp >= 1,
                pk >= 1,
                l1 >= 1,
        ;
    }
}

/// The denominator of term `k` of the Chudnovsky series,
/// `(3k)! (k!)^3 640320^(3k)`; its numerator is `(-1)^k (6k)! (A + B k)`.
pub open spec fn chudnovsky_den(k: nat) -> int {
    (factorial(3 * k) * (factorial(k) * factorial(k) * factorial(k))) as int * ipow(640320, 3 * k)
}

proof fn lemma_regroup(a: int, b: int, c: int, d: int, e: int, f: int)
    ensures
        (a * b) * (c * d) * (e * f) == (a * c * e) * (b * d * f),
{
    assert((a * b) * (c * d) == (a * c) * (b * d)) by (nonlinear_arith);
    assert(((a * c) * (b * d)) * (e * f) == ((a * c) * e) * ((b * d) * f)) by (nonlinear_arith);
}

proof fn lemma_chudnovsky_step(k: nat)
    ensures
        chudnovsky_den(k + 1) == chudnovsky_den(k) * ((3 * k + 1) * (3 * k + 2) * (3 * k + 3) * ((k
            + 1) * (k + 1) * (k + 1)) * 262537412640768000),
        factorial(6 * k + 6) == factorial(6 * k) * ((6 * k + 1) * (6 * k + 2) * (6 * k + 3) * (6 * k
            + 4) * (6 * k + 5) * (6 * k + 6)),
{
    let f3 = factorial(3 * k) as int;
    let fk = factorial(k) as int;
    let ip = ipow(640320, 3 * k);
    let u = 3 * k + 1;
    let v = 3 * k + 2;
    let w = 3 * k + 3;
    let e = k + 1;
    assert(factorial(3 * k + 1) == u * f3);
    assert(factorial(3 * k + 2) == v * factorial(3 * k + 1));
    assert(factorial(3 * k + 3) == w * factorial(3 * k + 2));
    assert(3 * (k + 1) == 3 * k + 3);
    assert(factorial(k + 1) == e * fk);
    assert(ipow(640320, 3 * k + 1) == 640320 * ip);
    assert(ipow(640320, 3 * k + 2) == 640320 * ipow(640320, 3 * k + 1));
    assert(ipow(640320, 3 * k + 3) == 640320 * ipow(640320, 3 * k + 2));
    assert(w * (v * (u * f3)) == f3 * (u * v * w)) by (nonlinear_arith);
    assert((e * fk) * (e * fk) * (e * fk) == (fk * fk * fk) * (e * e * e)) by (nonlinear_arith);
    assert(640320 * (640320 * (640320 * ip)) == ip * 262537412640768000) by (nonlinear_arith);
    lemma_regroup(f3, (u * v * w) as int, fk * fk * fk, (e * e * e) as int, ip, 262537412640768000);
    let f6 = factorial(6 * k) as int;
    assert(factorial(6 * k + 1) == (6 * k + 1) * f6);
    assert(factorial(6 * k + 2) == (6 * k + 2) * factorial(6 * k + 1));
    assert(factorial(6 * k + 3) == (6 * k + 3) * factorial(6 * k + 2));
    assert(factorial(6 * k + 4) == (6 * k + 4) * factorial(6 * k + 3));
    assert(factorial(6 * k + 5) == (6 * k + 5) * factorial(6 * k + 4));
    assert(factorial(6 * k + 6) == (6 * k + 6) * factorial(6 * k + 5));
    let (a1, a2, a3, a4, a5, a6) = (6 * k + 1, 6 * k + 2, 6 * k + 3, 6 * k + 4, 6 * k + 5, 6 * k + 6);
    assert(a6 * (a5 * (a4 * (a3 * (a2 * (a1 * f6))))) == f6 * (a1 * a2 * a3 * a4 * a5 * a6))
        by (nonlinear_arith);
}

proof fn lemma_swap(a: int, b: int, c: int, d: int)
    ensures
        (a * b) * (c * d) == (a * c) * (b * d),
{
    assert((a * b) * (c * d) == (a * c) * (b * d)) by (nonlinear_arith);
}

proof fn lemma_leaf_lhs(a: int, b: int, e3: int)
    ensures
        a * (3 * b * e3 * 262537412640768000) == (e3 * 10939058860032000) * (72 * (a * b)),
{
    assert(a * (3 * b * e3 * 262537412640768000) == (a * b * e3) * 787612237922304000)
        by (nonlinear_arith);
    assert((e3 * 10939058860032000) * (72 * (a * b)) == (a * b * e3) * 787612237922304000)
        by (nonlinear_arith);
}

proof fn lemma_reorder_six(f: int, u: int, g: int, v: int, h: int, e: int)
    ensures
        f * (2 * u) * (3 * g) * (2 * v) * h * (6 * e) == 72 * ((f * g * h) * (u * v * e)),
{
    let x1 = f * u;
    assert(f * (2 * u) == 2 * x1) by (nonlinear_arith)
        requires
            x1 == f * u,
    ;
    let x2 = x1 * g;
    assert((2 * x1) * (3 * g) == 6 * x2) by (nonlinear_arith)
        requires
            x2 == x1 * g,
    ;
    let x3 = x2 * v;
    assert((6 * x2) * (2 * v) == 12 * x3) by (nonlinear_arith)
        requires
            x3 == x2 * v,
    ;
    let x4 = x3 * h;
    assert((12 * x3) * h == 12 * x4) by (nonlinear_arith)
        requires
            x4 == x3 * h,
    ;
    let x5 = x4 * e;
    assert((12 * x4) * (6 * e) == 72 * x5) by (nonlinear_arith)
        requires
            x5 == x4 * e,
    ;
    assert(x5 == (f * g * h) * (u * v * e)) by (nonlinear_arith)
        requires
            x1 == f * u,
            x2 == x1 * g,
            x3 == x2 * v,
            x4 == x3 * h,
            x5 == x4 * e,
    ;
}

/// One term's worth of the ratio: `p_(j+1)` times the growth of the
/// denominator equals `q_(j+1)` times the growth of `(6k)!`.
proof fn lemma_chudnovsky_leaf(j: nat)
    ensures
        (leaf_p(j + 1) as int) * ((3 * j + 1) * (3 * j + 2) * (3 * j + 3) * ((j + 1) * (j + 1) * (j
            + 1)) * 262537412640768000) == (leaf_q(j + 1) as int) * ((6 * j + 1) * (6 * j + 2) * (6 * j
            + 3) * (6 * j + 4) * (6 * j + 5) * (6 * j + 6)),
{
    let k = j + 1;
    let f = 6 * j + 1;
    let g = 2 * j + 1;
    let h = 6 * j + 5;
    let u = 3 * j + 1;
    let v = 3 * j + 2;
    let e = j + 1;
    assert(6 * k - 5 == f && 2 * k - 1 == g && 6 * k - 1 == h);
    assert(leaf_p(k) == f * g * h);
    let e3 = (e * e * e) as int;
    assert(leaf_q(k) == e3 * 10939058860032000);
    let a = f * g * h;
    let b = u * v * e;
    assert(u * v * (3 * e) == 3 * b) by (nonlinear_arith)
        requires
            b == u * v * e,
    ;
    lemma_leaf_lhs(a as int, b as int, e3);
    lemma_reorder_six(f as int, u as int, g as int, v as int, h as int, e as int);
}

/// The ratio of the accumulators is that of the Chudnovsky series: after
/// the terms `0..=k`, `P / Q = (6k)! / ((3k)! (k!)^3 640320^(3k))`.
pub proof fn lemma_chudnovsky_ratio(k: nat)
    ensures
        (series_p(0, k + 1) as int) * chudnovsky_den(k) == (series_q(0, k + 1) as int) * (factorial(
            6 * k,
        ) as int),
    decreases k,
{
    if k == 0 {
        assert(series_p(0, 0) == 1);
        assert(series_q(0, 0) == 1);
        assert(leaf_p(0) == 1 && leaf_q(0) == 1);
        assert(series_p(0, 1) == series_p(0, 0) * leaf_p(0));
        assert(series_q(0, 1) == series_q(0, 0) * leaf_q(0));
        assert(factorial(0) == 1);
        assert(ipow(640320, 0) == 1);
        assert(chudnovsky_den(0) == 1);
    } else {
        let j = (k - 1) as nat;
        lemma_chudnovsky_ratio(j);
        lemma_chudnovsky_step(j);
        lemma_chudnovsky_leaf(j);
        assert(j + 1 == k);
        assert(6 * j + 6 == 6 * k);
        let pp = series_p(0, k) as int;
        let qq = series_q(0, k) as int;
        let p1 = leaf_p(k) as int;
        let q1 = leaf_q(k) as int;
        assert(series_p(0, k + 1) == series_p(0, k) * leaf_p(k));
        assert(series_q(0, k + 1) == series_q(0, k) * leaf_q(k));
        let x = (3 * j + 1) * (3 * j + 2) * (3 * j + 3) * ((j + 1) * (j + 1) * (j + 1))
            * 262537412640768000;
        let y = (6 * j + 1) * (6 * j + 2) * (6 * j + 3) * (6 * j + 4) * (6 * j + 5) * (6 * j + 6);
        lemma_swap(pp, p1, chudnovsky_den(j), x as int);
        lemma_swap(qq, q1, factorial(6 * j) as int, y as int);
    }
}

/// The factor `A + B k = 13591409 + 545140134 k` of term `k`.
#[verifier::opaque]
pub open spec fn chudnovsky_weight(k: nat) -> int {
    13591409 + 545140134 * (k as int)
}

/// `Q(0, n)` times the first `m` terms of the Chudnovsky series,
/// `(-1)^k (6k)! (A + B k) / ((3k)! (k!)^3 640320^(3k))` for `k < m`.
pub open spec fn chudnovsky_sum(n: nat, m: nat) -> int
    decreases m,
{
    if m == 0 {
        0
    } else {
        let k = (m - 1) as nat;
        chudnovsky_sum(n, k) + ipow(-1, k) * chudnovsky_weight(k) * ((series_q(0, n) as int
            * factorial(6 * k) as int) / chudnovsky_den(k))
    }
}

/// The same terms, written with the accumulators.
spec fn alternating_sum(n: nat, m: nat) -> int
    decreases m,
{
    if m == 0 {
        0
    } else {
        let k = (m - 1) as nat;
        alternating_sum(n, k) + ipow(-1, k) * chudnovsky_weight(k) * (series_p(0, k + 1) as int
            * series_q(k + 1, n) as int)
    }
}

proof fn lemma_ipow_pos(b: int, n: nat)
    requires
        b >= 1,
    ensures
        ipow(b, n) >= 1,
    decreases n,
{
    if n > 0 {
        lemma_ipow_pos(b, (n - 1) as nat);
        assert(b * ipow(b, (n - 1) as nat) >= 1) by (nonlinear_arith)
            requires
                b >= 1,
                ipow(b, (n - 1) as nat) >= 1,
        ;
    }
}

proof fn lemma_den_pos(k: nat)
    ensures
        chudnovsky_den(k) >= 1,
{
    crate::e::lemma_factorial_pos(3 * k);
    crate::e::lemma_factorial_pos(k);
    lemma_ipow_pos(640320, 3 * k);
    let f3 = factorial(3 * k) as int;
    let fk = factorial(k) as int;
    let ip = ipow(640320, 3 * k);
    assert(f3 * (fk * fk * fk) * ip >= 1) by (nonlinear_arith)
        requires
            f3 >= 1,
            fk >= 1,
            ip >= 1,
    ;
}

/// Each term of the sum is an exact quotient: `Q(0, n) (6k)!` is
/// `P(0, k+1) Q(k+1, n)` times the denominator of term `k`.
proof fn lemma_term_exact(n: nat, k: nat)
    requires
        k < n,
    ensures
        ((series_q(0, n) as int) * (factorial(6 * k) as int)) % chudnovsky_den(k) == 0,
        ((series_q(0, n) as int) * (factorial(6 * k) as int)) / chudnovsky_den(k) == (series_p(
            0,
            k + 1,
        ) as int) * (series_q(k + 1, n) as int),
{
    lemma_series_split(0, k + 1, n);
    lemma_chudnovsky_ratio(k);
    lemma_den_pos(k);
    let q1 = series_q(0, k + 1) as int;
    let q2 = series_q(k + 1, n) as int;
    let p1 = series_p(0, k + 1) as int;
    let nf = factorial(6 * k) as int;
    let d = chudnovsky_den(k);
    assert((q1 * q2) * nf == d * (p1 * q2)) by (nonlinear_arith)
        requires
            p1 * d == q1 * nf,
    ;
    lemma_div_multiples_vanish(p1 * q2, d);
    lemma_mod_multiples_basic(p1 * q2, d);
    assert(d * (p1 * q2) == (p1 * q2) * d) by (nonlinear_arith);
}

proof fn lemma_sums_agree(n: nat, m: nat)
    requires
        m <= n,
    ensures
        chudnovsky_sum(n, m) == alternating_sum(n, m),
    decreases m,
{
    if m > 0 {
        lemma_sums_agree(n, (m - 1) as nat);
        lemma_term_exact(n, (m - 1) as nat);
    }
}

proof fn lemma_alternating_scale(n: nat, m: nat)
    requires
        m <= n,
    ensures
        alternating_sum(n + 1, m) == (leaf_q(n) as int) * alternating_sum(n, m),
    decreases m,
{
    if m > 0 {
        let k = (m - 1) as nat;
        lemma_alternating_scale(n, k);
        let c = ipow(-1, k) * chudnovsky_weight(k) * (series_p(0, k + 1) as int);
        let q = series_q(k + 1, n) as int;
        let qn = leaf_q(n) as int;
        assert(series_q(k + 1, n + 1) == series_q(k + 1, n) * leaf_q(n));
        assert(ipow(-1, k) * chudnovsky_weight(k) * (series_p(0, k + 1) as int * (q * qn)) == qn * (
        c * q)) by (nonlinear_arith)
            requires
                c == ipow(-1, k) * chudnovsky_weight(k) * (series_p(0, k + 1) as int),
        ;
        assert(ipow(-1, k) * chudnovsky_weight(k) * (series_p(0, k + 1) as int * q) == c * q)
            by (nonlinear_arith)
            requires
                c == ipow(-1, k) * chudnovsky_weight(k) * (series_p(0, k + 1) as int),
        ;
        let prev = alternating_sum(n, k);
        assert(qn * prev + qn * (c * q) == qn * (prev + c * q)) by (nonlinear_arith);
    } else {
        assert((leaf_q(n) as int) * 0 == 0);
    }
}

proof fn lemma_ipow_one(n: nat)
    ensures
        ipow(1, n) == 1,
    decreases n,
{
    if n > 0 {
        lemma_ipow_one((n - 1) as nat);
    }
}

/// The series sum is the alternating Chudnovsky sum: for every `n`,
/// `T(0, n) / Q(0, n)` is the sum over `k < n` of
/// `(-1)^k (6k)! (A + B k) / ((3k)! (k!)^3 640320^(3k))`, each term an
/// exact quotient once multiplied by `Q(0, n)`.
pub proof fn lemma_chudnovsky_sum(n: nat)
    ensures
        series_t(0, n) == chudnovsky_sum(n, n),
        forall|k: nat|
            k < n ==> (#[trigger] (series_q(0, n) as int * factorial(6 * k) as int))
                % chudnovsky_den(k) == 0,
    decreases n,
{
    assert forall|k: nat| k < n implies (#[trigger] (series_q(0, n) as int * factorial(
        6 * k,
    ) as int)) % chudnovsky_den(k) == 0 by {
        lemma_term_exact(n, k);
    }
    lemma_sums_agree(n, n);
    if n > 0 {
        let j = (n - 1) as nat;
        lemma_chudnovsky_sum(j);
        lemma_sums_agree(j, j);
        lemma_alternating_scale(j, j);
        crate::quadratic::lemma_ipow_neg(1, j);
        lemma_ipow_one(j);
        let s = ipow(-1, j);
        let w = chudnovsky_weight(j);
        assert(w == CHU_A + CHU_B * j) by {
            reveal(chudnovsky_weight);
        }
        let pj = series_p(0, j) as int;
        let p1 = leaf_p(j) as int;
        assert(series_p(0, n) == series_p(0, j) * leaf_p(j));
        assert(series_q(n, n) == 1);
        assert(leaf_t(j) == s * (p1 * w)) by {
            if j == 0 {
                assert(leaf_p(0) == 1);
            }
        }
        assert(s * w * ((pj * p1) * 1) == pj * (s * (p1 * w))) by (nonlinear_arith);
    }
}

/// Term `k` alone: `t_k = (-1)^k p_k (A + B k)`, and for `k >= 1`,
/// `p_k / q_k` is the ratio of consecutive Chudnovsky coefficients
/// `(6k)! / ((3k)! (k!)^3 640320^(3k))`.
pub proof fn lemma_leaf_is_chudnovsky(k: nat)
    ensures
        leaf_t(k) == ipow(-1, k) * (leaf_p(k) as int) * chudnovsky_weight(k),
        k >= 1 ==> (leaf_p(k) as int) * chudnovsky_den(k) * (factorial((6 * k - 6) as nat) as int)
            == (leaf_q(k) as int) * (factorial(6 * k) as int) * chudnovsky_den((k - 1) as nat),
{
    crate::quadratic::lemma_ipow_neg(1, k);
    lemma_ipow_one(k);
    if k == 0 {
        assert(leaf_p(0) == 1);
    }
    assert(chudnovsky_weight(k) == CHU_A + CHU_B * k) by {
        reveal(chudnovsky_weight);
    }
    assert(leaf_t(k) == ipow(-1, k) * ((leaf_p(k) as int) * chudnovsky_weight(k)));
    let pw = (leaf_p(k) as int) * chudnovsky_weight(k);
    assert(ipow(-1, k) * pw == ipow(-1, k) * (leaf_p(k) as int) * chudnovsky_weight(k))
        by (nonlinear_arith)
        requires
            pw == (leaf_p(k) as int) * chudnovsky_weight(k),
    ;
    if k >= 1 {
        let j = (k - 1) as nat;
        lemma_chudnovsky_step(j);
        lemma_chudnovsky_leaf(j);
        assert(j + 1 == k && 6 * j + 6 == 6 * k && 6 * j == 6 * k - 6);
        let x = ((3 * j + 1) * (3 * j + 2) * (3 * j + 3) * ((j + 1) * (j + 1) * (j + 1))
            * 262537412640768000) as int;
        let y = ((6 * j + 1) * (6 * j + 2) * (6 * j + 3) * (6 * j + 4) * (6 * j + 5) * (6 * j + 6))
            as int;
        let p = leaf_p(k) as int;
        let q = leaf_q(k) as int;
        let d = chudnovsky_den(j);
        let f = factorial(6 * j) as int;
        assert(p * (d * x) * f == q * (f * y) * d) by (nonlinear_arith)
            requires
                p * x == q * y,
        ;
    }
}

/// The accumulators of the single term `a`.
pub fn bs_leaf(a: u64) -> (r: Pqt)
    requires
        6 * a <= u64::MAX,
    ensures
        r.p@ == series_p(a as nat, a as nat + 1),
        r.q@ == series_q(a as nat, a as nat + 1),
        r.t@ == series_t(a as nat, a as nat + 1),
        r.t@ == ipow(-1, a as nat) * (r.p@ as int) * chudnovsky_weight(a as nat),
        a >= 1 ==> (r.p@ as int) * chudnovsky_den(a as nat) * (factorial((6 * a - 6) as nat) as int)
            == (r.q@ as int) * (factorial(6 * a as nat) as int) * chudnovsky_den((a - 1) as nat),
{
    proof {
        lemma_leaf_is_chudnovsky(a as nat);
        assert(series_p(a as nat, a as nat) == 1);
        assert(series_q(a as nat, a as nat) == 1);
        assert(series_t(a as nat, a as nat) == 0);
        assert(series_p(a as nat, a as nat + 1) == 1 * leaf_p(a as nat));
        assert(series_q(a as nat, a as nat + 1) == 1 * leaf_q(a as nat));
        assert(series_t(a as nat, a as nat + 1) == leaf_q(a as nat) * 0 + 1 * leaf_t(a as nat));
        assert(leaf_q(a as nat) * 0 + 1 * leaf_t(a as nat) == leaf_t(a as nat)) by (
        nonlinear_arith);
    }
    if a == 0 {
        Pqt {
            p: BigNat::from_u64(1),
            q: BigNat::from_u64(1),
            t: BigInt::from_nat(BigNat::from_u64(CHU_A)),
        }
    } else {
        let p = BigNat::from_u64(6 * a - 5).mul(&BigNat::from_u64(2 * a - 1)).mul(
            &BigNat::from_u64(6 * a - 1),
        );
        let ai = BigNat::from_u64(a);
        let q = ai.mul(&ai).mul(&ai).mul(&BigNat::from_u64(CHU_C3_24));
        let weight = BigNat::from_u64(CHU_A).add(&BigNat::from_u64(CHU_B).mul(&ai));
        let t_abs = BigInt::from_nat(p.copy()).mul_nat(&weight);
        let t = if a % 2 == 1 {
            t_abs.neg()
        } else {
            t_abs
        };
        Pqt { p, q, t }
    }
}

/// Combine two adjacent ranges `[a, m)` and `[m, b)`: `P` and `Q` multiply,
/// and `T(a, b) = Q(m, b) * T(a, m) + P(a, m) * T(m, b)`.
pub fn bs_merge(l: Pqt, r: Pqt) -> (m: Pqt)
    ensures
        m.p@ == l.p@ * r.p@,
        m.q@ == l.q@ * r.q@,
        m.t@ == r.q@ * l.t@ + l.p@ * r.t@,
{
    let t = l.t.mul_nat(&r.q).add(&r.t.mul_nat(&l.p));
    proof {
        assert(l.t@ * r.q@ + r.t@ * l.p@ == r.q@ * l.t@ + l.p@ * r.t@) by (nonlinear_arith);
    }
    Pqt { p: l.p.mul(&r.p), q: l.q.mul(&r.q), t }
}

/// The two halves `[a, m)` and `[m, b)` computed in parallel with
/// `rayon::join`, which runs both closures (each a call of `bs`) and
/// returns their results in order: the contract claims of each half what
/// `bs` promises for it.
#[verifier::external_body]
fn bs_halves_in_parallel(a: u64, m: u64, b: u64) -> (r: (Pqt, Pqt))
    requires
        a < m < b,
        6 * (b - 1) <= u64::MAX,
    ensures
        r.0.p@ == series_p(a as nat, m as nat),
        r.0.q@ == series_q(a as nat, m as nat),
        r.0.t@ == series_t(a as nat, m as nat),
        r.1.p@ == series_p(m as nat, b as nat),
        r.1.q@ == series_q(m as nat, b as nat),
        r.1.t@ == series_t(m as nat, b as nat),
{
    rayon::join(|| bs(a, m), || bs(m, b))
}

/// Binary splitting of the range `[a, b)`: halves are computed recursively
/// (in parallel above `BS_PAR_THRESHOLD` terms) and merged.
pub fn bs(a: u64, b: u64) -> (r: Pqt)
    requires
        a < b,
        6 * (b - 1) <= u64::MAX,
    ensures
        r.p@ == series_p(a as nat, b as nat),
        r.q@ == series_q(a as nat, b as nat),
        r.t@ == series_t(a as nat, b as nat),
        a == 0 ==> r.t@ == chudnovsky_sum(b as nat, b as nat),
        a == 0 ==> (r.p@ as int) * chudnovsky_den((b - 1) as nat) == (r.q@ as int) * (factorial(
            (6 * (b - 1)) as nat,
        ) as int),
    decreases b - a,
{
    proof {
        if a == 0 {
            lemma_chudnovsky_sum(b as nat);
            lemma_chudnovsky_ratio((b - 1) as nat);
        }
    }
    if b - a == 1 {
        return bs_leaf(a);
    }
    let m = a + (b - a) / 2;
    proof {
        lemma_series_split(a as nat, m as nat, b as nat);
    }
    if b - a <= BS_PAR_THRESHOLD {
        let l = bs(a, m);
        let r = bs(m, b);
        return bs_merge(l, r);
    }
    let (l, r) = bs_halves_in_parallel(a, m, b);
    bs_merge(l, r)
}

/// The decimal text of pi with exactly `digits` places after the point,
/// from the text `raw` that an arbitrary-precision float prints for it in
/// base 10 (with a few digits to spare): the exponent marker and what
/// follows it are dropped, and the places after the point are cut or padded
/// with zeros.
pub fn pi_to_string(raw: &str, digits: usize) -> (s: String)
    requires
        raw.is_ascii(),
        raw@.len() + digits + 1 <= usize::MAX,
    ensures
        s@ == digits::fixed_decimals_text(raw@, digits as nat),
{
    digits::fixed_decimals(raw, digits)
}

/// The number of Chudnovsky terms used for `digits` places: each term adds
/// about 14 digits, and 10 more terms leave a margin.
pub fn pi_terms(digits: usize) -> (n: u64)
    ensures
        n == digits / 14 + 10,
{
    (digits / 14) as u64 + 10
}

/// `r` is the integer square root of `n`.
pub open spec fn is_root_floor(r: nat, n: nat) -> bool {
    r * r <= n < (r + 1) * (r + 1)
}

/// The integer square root of `n`: the largest `r` with `r * r <= n`.
pub open spec fn root_floor(n: nat) -> nat {
    choose|r: nat| #[trigger] is_root_floor(r, n)
}

proof fn lemma_root_floor(n: nat, r: nat)
    requires
        r * r <= n < (r + 1) * (r + 1),
    ensures
        root_floor(n) == r,
{
    assert(is_root_floor(r, n));
    let c = root_floor(n);
    assert(is_root_floor(c, n));
    if c < r {
        assert((c + 1) * (c + 1) <= r * r) by (nonlinear_arith)
            requires
                c + 1 <= r,
        ;
    }
    if r < c {
        assert((r + 1) * (r + 1) <= c * c) by (nonlinear_arith)
            requires
                r + 1 <= c,
        ;
    }
}

/// `(10^d * pi)^2` by the series, cut to an integer:
/// `426880^2 * 10005 * Q^2 * 10^(2d) / T^2`, as
/// `pi = 426880 * sqrt(10005) * Q / T`.
pub open spec fn pi_scaled_square(q: nat, t: nat, d: nat) -> nat {
    (426880 * 426880 * 10005 * (q * q) * (digits::pow10(d) * digits::pow10(d))) / (t * t)
}

/// Pi from the first `n_terms` terms of the Chudnovsky series with exactly
/// `digits` places after the point, cut after the last one: the integer
/// square root of `pi_scaled_square`, read with `digits` places. The
/// series sum `T(0, n)` is always positive (`lemma_series_t_positive`).
pub fn pi_text(n_terms: u64, digits: u32) -> (s: String)
    requires
        1 <= n_terms,
        6 * (n_terms - 1) <= u64::MAX,
    ensures
        s@ == fixed_point_text(
            root_floor(
                pi_scaled_square(
                    series_q(0, n_terms as nat),
                    series_t(0, n_terms as nat) as nat,
                    digits as nat,
                ),
            ),
            digits::pow10(digits as nat),
            digits as nat,
        ),
{
    let pqt = bs(0, n_terms);
    proof {
        lemma_series_t_positive(n_terms as nat);
    }
    let t = pqt.t.magnitude();
    let scale = BigNat::pow(10, digits as u64);
    let c = BigNat::from_u64(182226534400).mul(&BigNat::from_u64(10005));
    let num = c.mul(&pqt.q.mul(&pqt.q)).mul(&scale.mul(&scale));
    let den = t.mul(&t);
    proof {
        crate::bignum::lemma_nat_pow_ten(digits as nat);
        assert(t@ * t@ > 0) by (nonlinear_arith)
            requires
                t@ > 0,
        ;
    }
    let (sq, sq_rem) = num.divmod(&den);
    proof {
        vstd::arithmetic::div_mod::lemma_fundamental_div_mod_converse_div(
            num@ as int,
            den@ as int,
            sq@ as int,
            sq_rem@ as int,
        );
    }
    let root = sq.isqrt();
    proof {
        lemma_root_floor(sq@, root@);
        digits::lemma_pow10_pos(digits as nat);
    }
    root.to_fixed_point(&scale, digits)
}

} // verus!
