//! Perfect squares below a power of ten.
use crate::digits::{self, pow10};
use vstd::prelude::*;

verus! {

/// `10^d` for `d <= 19`, the largest power of ten in a `u64`.
pub fn ten_pow(d: u32) -> (r: u64)
    requires
        d <= 19,
    ensures
        r == pow10(d as nat),
{
    let mut r: u64 = 1;
    let mut i: u32 = 0;
    while i < d
        invariant
            i <= d <= 19,
            r == pow10(i as nat),
        decreases d - i,
    {
        proof {
            lemma_pow10_bound(i as nat + 1);
        }
        r = r * 10;
        i = i + 1;
    }
    r
}

proof fn lemma_pow10_bound(d: nat)
    requires
        d <= 19,
    ensures
        pow10(d) <= 10000000000000000000,
{
    lemma_pow10_monotone(d, 19);
    reveal_with_fuel(pow10, 20);
    assert(pow10(19) == 10000000000000000000);
}

proof fn lemma_pow10_monotone(a: nat, b: nat)
    requires
        a <= b,
    ensures
        pow10(a) <= pow10(b),
    decreases b,
{
    if a < b {
        lemma_pow10_monotone(a, (b - 1) as nat);
    }
}

/// All perfect squares `k * k` (with `k >= 1`) below `10^max_digits`, as
/// pairs `(k * k, k)` in increasing order.
pub fn generate_squares(max_digits: u32) -> (squares: Vec<(u64, u64)>)
    requires
        max_digits <= 19,
    ensures
        forall|i: int|
            0 <= i < squares.len() ==> #[trigger] squares@[i].0 == (i + 1) * (i + 1)
                && squares@[i].1 == i + 1,
        squares.len() * squares.len() < pow10(max_digits as nat),
        (squares.len() + 1) * (squares.len() + 1) >= pow10(max_digits as nat),
{
    let limit: u64 = ten_pow(max_digits);
    proof {
        lemma_pow10_monotone(0, max_digits as nat);
    }
    let mut k: u64 = 1;
    let mut squares: Vec<(u64, u64)> = Vec::new();
    let mut done = false;
    while !done
        invariant
            limit == pow10(max_digits as nat),
            limit >= 1,
            k == squares.len() + 1,
            (k - 1) * (k - 1) < limit,
            k <= limit,
            done ==> k * k >= limit,
            forall|i: int|
                0 <= i < squares.len() ==> #[trigger] squares@[i].0 == (i + 1) * (i + 1)
                    && squares@[i].1 == i + 1,
        decreases limit - k + (if done {
            0int
        } else {
            1int
        }),
    {
        match k.checked_mul(k) {
            Some(sq) => {
                if sq < limit {
                    assert(k < limit) by (nonlinear_arith)
                        requires k * k < limit, k >= 1;
                    squares.push((sq, k));
                    k = k + 1;
                } else {
                    done = true;
                }
            },
            None => {
                done = true;
            },
        }
    }
    squares
}

/// Format an integer with thousands separators (e.g. 1_000_000 -> "1,000,000").
pub fn fmt_int(n: u64) -> (s: String)
    ensures
        s@ == digits::with_commas(n as nat),
{
    digits::fmt_int(n)
}

} // verus!
