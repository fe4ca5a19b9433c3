//! Sums of proper divisors for every number up to a limit, the table from
//! which amicable pairs are read.
use vstd::prelude::*;

verus! {

/// The sum of the divisors of `n` that lie in `[1, b)`.
pub open spec fn divisor_sum_below(n: nat, b: nat) -> nat
    decreases b,
{
    if b == 0 {
        0
    } else {
        let d = (b - 1) as nat;
        divisor_sum_below(n, d) + if d >= 1 && n % d == 0 {
            d
        } else {
            0
        }
    }
}

/// The sum of the proper divisors of `n` (those smaller than `n`); 0 for 0.
pub open spec fn proper_divisor_sum(n: nat) -> nat {
    divisor_sum_below(n, n)
}

pub(crate) proof fn lemma_divisor_sum_monotone(n: nat, a: nat, b: nat)
    requires
        a <= b,
    ensures
        divisor_sum_below(n, a) <= divisor_sum_below(n, b),
    decreases b - a,
{
    if a < b {
        lemma_divisor_sum_monotone(n, a, (b - 1) as nat);
    }
}

/// No divisor of `n` lies strictly between `n / 2` and `n`.
proof fn lemma_divisor_sum_upper_half(n: nat, b: nat)
    requires
        n / 2 < b <= n,
    ensures
        divisor_sum_below(n, b) == divisor_sum_below(n, n),
    decreases n - b,
{
    if b < n {
        lemma_divisor_sum_upper_half(n, b + 1);
        if n % b == 0 {
            vstd::arithmetic::div_mod::lemma_fundamental_div_mod(n as int, b as int);
            let q = n / b;
            assert(false) by (nonlinear_arith)
                requires
                    n == b * q + 0,
                    n / 2 < b,
                    b < n,
                    n / 2 * 2 + n % 2 == n,
                    n % 2 < 2,
            ;
        }
    }
}

/// Table `s` with `s[n]` the sum of the proper divisors of `n`, for every
/// `n` in `0..=limit`.
pub fn proper_divisor_sum_sieve(limit: usize) -> (s: Vec<u32>)
    requires
        limit < usize::MAX,
        forall|n: nat| n <= limit ==> #[trigger] proper_divisor_sum(n) <= u32::MAX,
    ensures
        s.len() == limit + 1,
        forall|n: int| 0 <= n <= limit ==> #[trigger] s[n] == proper_divisor_sum(n as nat),
{
    let mut s: Vec<u32> = vec![0u32; limit + 1];
    let mut d: usize = 1;
    proof {
        assert forall|m: int| 0 <= m <= limit implies #[trigger] s[m] == divisor_sum_below(
            m as nat,
            if 1 <= m {
                1
            } else {
                m as nat
            },
        ) by {
            assert(divisor_sum_below(m as nat, 0) == 0);
            assert(divisor_sum_below(m as nat, 1) == 0);
        }
    }
    while d <= limit / 2
        invariant
            1 <= d <= limit / 2 + 1,
            limit < usize::MAX,
            s.len() == limit + 1,
            forall|n: nat| n <= limit ==> #[trigger] proper_divisor_sum(n) <= u32::MAX,
            forall|m: int|
                0 <= m <= limit ==> #[trigger] s[m] == divisor_sum_below(
                    m as nat,
                    if d <= m {
                        d as nat
                    } else {
                        m as nat
                    },
                ),
        decreases limit / 2 + 1 - d,
    {
        proof {
            lemma_divisor_sum_monotone(2 * d as nat, d as nat + 1, 2 * d as nat);
            assert(divisor_sum_below(2 * d as nat, d as nat + 1) >= d) by {
                assert((2 * d as nat) % (d as nat) == 0) by {
                    vstd::arithmetic::div_mod::lemma_mod_multiples_basic(2, d as int);
                }
            }
            assert(proper_divisor_sum(2 * d as nat) <= u32::MAX);
            assert(d <= u32::MAX);
            vstd::arithmetic::div_mod::lemma_mod_multiples_basic(2, d as int);
        }
        let dd = d as u32;
        let mut m: usize = 2 * d;
        while m <= limit
            invariant
                1 <= d <= limit / 2,
                limit < usize::MAX,
                dd == d,
                2 * d <= m <= limit + 1,
                m <= limit ==> m % d == 0,
                s.len() == limit + 1,
                forall|n: nat| n <= limit ==> #[trigger] proper_divisor_sum(n) <= u32::MAX,
                forall|x: int|
                    0 <= x <= limit ==> #[trigger] s[x] == divisor_sum_below(
                        x as nat,
                        if (2 * d <= x < m && x % (d as int) == 0) || d + 1 <= x {
                            if 2 * d <= x < m && x % (d as int) == 0 {
                                d as nat + 1
                            } else {
                                d as nat
                            }
                        } else {
                            x as nat
                        },
                    ),
            decreases limit + 1 - m,
        {
            proof {
                lemma_divisor_sum_monotone(m as nat, d as nat + 1, m as nat);
                assert(proper_divisor_sum(m as nat) <= u32::MAX);
                assert(s[m as int] == divisor_sum_below(m as nat, d as nat));
                assert(divisor_sum_below(m as nat, d as nat + 1) == divisor_sum_below(
                    m as nat,
                    d as nat,
                ) + d);
            }
            s[m] = s[m] + dd;
            let next = if limit - m < d {
                limit + 1
            } else {
                m + d
            };
            proof {
                if next <= limit {
                    vstd::arithmetic::div_mod::lemma_mod_add_multiples_vanish(m as int, d as int);
                }
                assert forall|x: int| 0 <= x <= limit implies #[trigger] s[x] == divisor_sum_below(
                    x as nat,
                    if (2 * d <= x < next && x % (d as int) == 0) || d + 1 <= x {
                        if 2 * d <= x < next && x % (d as int) == 0 {
                            d as nat + 1
                        } else {
                            d as nat
                        }
                    } else {
                        x as nat
                    },
                ) by {
                    if m < x < next && x % (d as int) == 0 {
                        vstd::arithmetic::div_mod::lemma_fundamental_div_mod(x, d as int);
                        vstd::arithmetic::div_mod::lemma_fundamental_div_mod(m as int, d as int);
                        let a = x / (d as int);
                        let c = (m as int) / (d as int);
                        assert(false) by (nonlinear_arith)
                            requires
                                x == d * a + 0,
                                m == d * c + 0,
                                m < x < m + d,
                                d > 0,
                        ;
                    }
                }
            }
            m = next;
        }
        proof {
            assert forall|x: int| 0 <= x <= limit implies #[trigger] s[x] == divisor_sum_below(
                x as nat,
                if d + 1 <= x {
                    d as nat + 1
                } else {
                    x as nat
                },
            ) by {
                if d + 1 <= x && !(2 * d <= x && x % (d as int) == 0) {
                    if x < 2 * d && x % (d as int) == 0 {
                        vstd::arithmetic::div_mod::lemma_fundamental_div_mod(x, d as int);
                        let a = x / (d as int);
                        assert(false) by (nonlinear_arith)
                            requires
                                x == d * a + 0,
                                d + 1 <= x < 2 * d,
                                d > 0,
                        ;
                    }
                    assert(divisor_sum_below(x as nat, d as nat + 1) == divisor_sum_below(
                        x as nat,
                        d as nat,
                    ));
                }
                if x == d {
                    assert(divisor_sum_below(x as nat, x as nat) == divisor_sum_below(
                        x as nat,
                        d as nat,
                    ));
                }
            }
        }
        d = d + 1;
    }
    proof {
        assert forall|n: int| 0 <= n <= limit implies #[trigger] s[n] == proper_divisor_sum(
            n as nat,
        ) by {
            if d <= n {
                assert(n / 2 < d) by {
                    assert(n / 2 <= limit / 2) by (nonlinear_arith)
                        requires n <= limit, n >= 0;
                }
                lemma_divisor_sum_upper_half(n as nat, d as nat);
            }
        }
    }
    s
}

/// `a` opens an amicable pair within `limit`: its proper divisors sum to a
/// larger `b <= limit` whose proper divisors sum back to `a`.
pub open spec fn opens_amicable_pair(a: nat, limit: nat) -> bool {
    let b = proper_divisor_sum(a);
    a < b && b <= limit && proper_divisor_sum(b) == a
}

/// The amicable pairs `(a, b)` with `a < k` and both within `limit`,
/// ordered by `a`.
pub open spec fn amicable_pairs_below(k: nat, limit: nat) -> Seq<(nat, nat)>
    decreases k,
{
    if k == 0 {
        Seq::empty()
    } else {
        let a = (k - 1) as nat;
        if opens_amicable_pair(a, limit) {
            amicable_pairs_below(a, limit).push((a, proper_divisor_sum(a)))
        } else {
            amicable_pairs_below(a, limit)
        }
    }
}

/// The values of a list of pairs of `u64`s.
pub open spec fn pairs_nat(v: Seq<(u64, u64)>) -> Seq<(nat, nat)> {
    v.map_values(|e: (u64, u64)| (e.0 as nat, e.1 as nat))
}

/// All amicable pairs `(a, b)` with `a < b <= limit`, ordered by `a`.
pub fn amicable_pairs(limit: usize) -> (pairs: Vec<(u64, u64)>)
    requires
        limit < usize::MAX,
        limit <= u64::MAX,
        forall|n: nat| n <= limit ==> #[trigger] proper_divisor_sum(n) <= u32::MAX,
    ensures
        pairs_nat(pairs@) == amicable_pairs_below(limit as nat + 1, limit as nat),
{
    let s = proper_divisor_sum_sieve(limit);
    let mut pairs: Vec<(u64, u64)> = Vec::new();
    let mut a: usize = 0;
    assert(pairs_nat(pairs@) =~= amicable_pairs_below(0, limit as nat));
    while a <= limit
        invariant
            a <= limit + 1,
            limit < usize::MAX,
            limit <= u64::MAX,
            s.len() == limit + 1,
            forall|n: int| 0 <= n <= limit ==> #[trigger] s[n] == proper_divisor_sum(n as nat),
            pairs_nat(pairs@) == amicable_pairs_below(a as nat, limit as nat),
        decreases limit + 1 - a,
    {
        let b = s[a] as usize;
        if a < b && b <= limit && s[b] as usize == a {
            let ghost before = pairs@;
            pairs.push((a as u64, b as u64));
            assert(pairs_nat(pairs@) =~= pairs_nat(before).push((a as nat, b as nat)));
        }
        a = a + 1;
    }
    pairs
}

} // verus!
