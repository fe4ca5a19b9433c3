//! Twin primes below a limit, found with a segmented Sieve of Eratosthenes.
use crate::digits;
use crate::arith::{self, is_prime, nats_of, primes_below, primes_in};
use vstd::arithmetic::div_mod::*;
use vstd::prelude::*;

verus! {

/// Number range covered by one sieve segment: 2^19 numbers.
pub const SEG_SIZE: u64 = 524288;

/// `j` has a divisor `d` with `2 <= d < bound` and `d * d <= j`.
pub open spec fn has_factor_below(j: int, bound: int) -> bool {
    exists|d: int| 2 <= d < bound && d * d <= j && #[trigger] (j % d) == 0
}

/// What the table of the simple sieve holds once every `d < i` is done.
pub open spec fn sieve_marked(j: int, i: int) -> bool {
    j < 2 || has_factor_below(j, i)
}

proof fn lemma_marked_composite_step(x: int, i: int)
    requires
        2 <= i,
        i * i <= x,
        x % (i as int) == 0,
        sieve_marked(i, i),
    ensures
        has_factor_below(x, i),
{
    let d = choose|d: int| 2 <= d < i && d * d <= i && #[trigger] (i % d) == 0;
    arith::lemma_divides_trans(d, i, x);
    assert(d * d <= x) by (nonlinear_arith)
        requires d * d <= i, 2 <= i, i * i <= x;
}

proof fn lemma_marked_final(x: int, i: int)
    requires
        0 <= x,
        2 <= i,
        x < i * i,
    ensures
        sieve_marked(x, i) <==> !is_prime(x),
{
    if x >= 2 {
        if has_factor_below(x, i) {
            let d = choose|d: int| 2 <= d < i && d * d <= x && #[trigger] (x % d) == 0;
            assert(d < x) by (nonlinear_arith)
                requires d * d <= x, 2 <= d;
        }
        if !is_prime(x) {
            let p = arith::lemma_composite_has_small_prime_factor(x);
            assert(p < i) by (nonlinear_arith)
                requires p * p <= x, x < i * i, 2 <= i, 2 <= p;
            assert(2 <= p < i && p * p <= x && x % p == 0);
        }
    }
}

/// Sieve `[2, limit]` and return all primes up to `limit`, in increasing order.
pub fn small_sieve(limit: u64) -> (primes: Vec<u64>)
    requires
        limit < isize::MAX,
    ensures
        nats_of(primes@) == primes_below(limit as nat + 1),
{
    let n = limit as usize;
    if n < 2 {
        let empty: Vec<u64> = Vec::new();
        proof {
            assert(primes_below(n as nat + 1) =~= Seq::empty()) by {
                assert(!is_prime(0));
                assert(!is_prime(1));
                assert(primes_below(0) =~= Seq::empty());
                assert(primes_below(1) =~= Seq::empty());
                if n == 1 {
                    assert(primes_below(2) =~= Seq::empty());
                }
            }
            assert(nats_of(empty@) =~= Seq::empty());
        }
        return empty;
    }
    let mut composite: Vec<bool> = vec![false; n + 1];
    composite.set(0, true);
    composite.set(1, true);
    let mut i: usize = 2;
    while i <= n / i
        invariant
            2 <= n < isize::MAX,
            2 <= i <= n + 1,
            composite.len() == n + 1,
            forall|j: int| 0 <= j <= n ==> #[trigger] composite[j] == sieve_marked(j, i as int),
        decreases n + 1 - i,
    {
        assert(i * i <= n) by (nonlinear_arith)
            requires i <= n / i, i >= 2;
        assert(i <= n) by (nonlinear_arith)
            requires i * i <= n, i >= 2;
        if !composite[i] {
            let mut j: usize = i * i;
            proof {
                lemma_mod_multiples_basic(i as int, i as int);
            }
            while j <= n
                invariant
                    2 <= n < isize::MAX,
                    2 <= i <= n,
                    i * i <= j,
                    j <= n + i,
                    j % i == 0,
                    composite.len() == n + 1,
                    forall|x: int|
                        0 <= x <= n ==> #[trigger] composite[x] == (sieve_marked(x, i as int) || (i
                            * i <= x < j && x % (i as int) == 0)),
                decreases n + i - j,
            {
                composite.set(j, true);
                proof {
                    assert((j + i) % (i as int) == 0) by {
                        lemma_mod_add_multiples_vanish(j as int, i as int);
                    }
                }
                j = j + i;
                proof {
                    assert forall|x: int| 0 <= x <= n implies #[trigger] composite[x] == (
                    sieve_marked(x, i as int) || (i * i <= x < j && x % (i as int) == 0)) by {
                        if j - i < x < j {
                            if x % (i as int) == 0 {
                                lemma_fundamental_div_mod(x, i as int);
                                lemma_fundamental_div_mod((j - i) as int, i as int);
                                let a = x / (i as int);
                                let b = (j - i) / (i as int);
                                assert(false) by (nonlinear_arith)
                                    requires
                                        x == i * a,
                                        j - i == i * b,
                                        j - i < x < j,
                                        i > 0,
                                ;
                            }
                        }
                    }
                }
            }
            proof {
                assert forall|x: int| 0 <= x <= n implies #[trigger] composite[x] == sieve_marked(
                    x,
                    i + 1,
                ) by {
                    if has_factor_below(x, i + 1) && !has_factor_below(x, i as int) {
                        let d = choose|d: int|
                            2 <= d < i + 1 && d * d <= x && #[trigger] (x % d) == 0;
                        assert(d == i);
                    }
                    if i * i <= x && x % (i as int) == 0 {
                        assert(has_factor_below(x, i + 1));
                    }
                }
            }
        } else {
            proof {
                assert forall|x: int| 0 <= x <= n implies #[trigger] composite[x] == sieve_marked(
                    x,
                    i + 1,
                ) by {
                    if has_factor_below(x, i + 1) && !has_factor_below(x, i as int) {
                        let d = choose|d: int|
                            2 <= d < i + 1 && d * d <= x && #[trigger] (x % d) == 0;
                        assert(d == i);
                        assert(composite[i as int]);
                        lemma_marked_composite_step(x, i as int);
                    }
                }
            }
        }
        i = i + 1;
    }
    proof {
        assert(n < i * i) by (nonlinear_arith)
            requires n / i < i, i >= 2;
        assert forall|x: int| 0 <= x <= n implies #[trigger] composite[x] == !is_prime(x) by {
            lemma_marked_final(x, i as int);
        }
    }
    let mut primes: Vec<u64> = Vec::new();
    let mut k: usize = 2;
    proof {
        assert(!is_prime(0));
        assert(!is_prime(1));
        assert(primes_below(0) =~= Seq::empty());
        assert(primes_below(1) =~= Seq::empty());
        assert(primes_below(2) =~= Seq::empty());
        assert(nats_of(primes@) =~= Seq::empty());
    }
    while k <= n
        invariant
            2 <= k <= n + 1,
            n < isize::MAX,
            n == limit,
            composite.len() == n + 1,
            forall|x: int| 0 <= x <= n ==> #[trigger] composite[x] == !is_prime(x),
            nats_of(primes@) == primes_below(k as nat),
        decreases n + 1 - k,
    {
        if !composite[k] {
            proof {
                arith::lemma_nats_of_push(primes@, k as u64);
            }
            primes.push(k as u64);
        }
        k = k + 1;
    }
    primes
}


/// Bit `i` of a little-endian packed bitset.
pub open spec fn bit_at(bytes: Seq<u8>, i: int) -> bool {
    bytes[i / 8] & (1u8 << ((i % 8) as u8)) != 0
}

proof fn lemma_u8_set_bit(b: u8, k: u8, m: u8)
    by (bit_vector)
    requires
        k < 8,
        m < 8,
    ensures
        ((b | (1u8 << k)) & (1u8 << m) != 0) == ((b & (1u8 << m) != 0) || k == m),
{
}

proof fn lemma_u8_zero_bit(m: u8)
    by (bit_vector)
    requires
        m < 8,
    ensures
        (0u8 & (1u8 << m)) == 0,
{
}

/// Some element of `sp` divides `x`.
pub open spec fn struck(x: int, sp: Seq<u64>) -> bool {
    exists|j: int| 0 <= j < sp.len() && x % (#[trigger] sp[j] as int) == 0
}

/// Some element among the first `m` of `sp` divides `x`.
pub open spec fn struck_by_prefix(x: int, sp: Seq<u64>, m: int) -> bool {
    exists|j: int| 0 <= j < m && x % (#[trigger] sp[j] as int) == 0
}

/// The end (exclusive) of the segment that starts at `lo` and stops after `limit`.
pub open spec fn segment_end(lo: nat, limit: nat) -> nat {
    if lo + SEG_SIZE <= limit + 1 {
        (lo + SEG_SIZE) as nat
    } else {
        limit + 1
    }
}

/// How many odd candidates `lo, lo + 2, ...` the segment holds.
pub open spec fn segment_count(lo: nat, limit: nat) -> nat {
    if lo >= segment_end(lo, limit) {
        0
    } else {
        ((segment_end(lo, limit) - lo + 1) / 2) as nat
    }
}

/// The candidates `lo + 2i` for `i < k` that no element of `sp` divides, in order.
pub open spec fn segment_survivors(lo: nat, k: nat, sp: Seq<u64>) -> Seq<nat>
    decreases k,
{
    if k == 0 {
        Seq::empty()
    } else {
        let x = lo + 2 * (k - 1);
        if struck(x, sp) {
            segment_survivors(lo, (k - 1) as nat, sp)
        } else {
            segment_survivors(lo, (k - 1) as nat, sp).push(x as nat)
        }
    }
}

/// The least odd multiple of the odd number `p` that is at least `lo`.
pub open spec fn first_odd_multiple(lo: int, p: int) -> int {
    let off = if lo % p == 0 {
        0
    } else {
        p - lo % p
    };
    if (lo + off) % 2 == 0 {
        lo + off + p
    } else {
        lo + off
    }
}

/// For an odd `p`, an odd divisor of twice a number divides the number.
pub proof fn lemma_odd_divides_double(y: int, p: int)
    requires
        p > 0,
        p % 2 == 1,
        (2 * y) % p == 0,
    ensures
        y % p == 0,
{
    lemma_fundamental_div_mod(2 * y, p);
    lemma_fundamental_div_mod(p, 2);
    let k = (2 * y) / p;
    let h = p / 2;
    lemma_fundamental_div_mod(k, 2);
    let m = k / 2;
    if k % 2 == 1 {
        assert(p * k == 2 * (2 * h * m + h + m) + 1) by (nonlinear_arith)
            requires
                p == 2 * h + 1,
                k == 2 * m + 1,
        ;
        assert(false);
    }
    assert(y == m * p) by (nonlinear_arith)
        requires
            2 * y == p * k + 0,
            k == 2 * m + 0,
    ;
    lemma_mod_multiples_basic(m, p);
}

proof fn lemma_first_odd_multiple(lo: int, p: int, i: int)
    requires
        lo >= 0,
        lo % 2 == 1,
        p > 0,
        p % 2 == 1,
        i >= 0,
    ensures
        first_odd_multiple(lo, p) % p == 0,
        first_odd_multiple(lo, p) % 2 == 1,
        lo <= first_odd_multiple(lo, p) < lo + 2 * p,
        ((lo + 2 * i) % p == 0) <==> (i >= (first_odd_multiple(lo, p) - lo) / 2 && (i - (
        first_odd_multiple(lo, p) - lo) / 2) % p == 0),
{
    let s = first_odd_multiple(lo, p);
    let off = if lo % p == 0 {
        0
    } else {
        p - lo % p
    };
    lemma_mod_bound(lo, p);
    assert((lo + off) % p == 0) by {
        lemma_fundamental_div_mod(lo, p);
        let q = lo / p;
        if lo % p == 0 {
        } else {
            assert(lo + off == (q + 1) * p) by (nonlinear_arith)
                requires lo == p * q + lo % p, off == p - lo % p;
            lemma_mod_multiples_basic(q + 1, p);
        }
    }
    assert(s % p == 0) by {
        if (lo + off) % 2 == 0 {
            lemma_mod_adds(lo + off, p, p);
            lemma_mod_self_0(p);
        }
    }
    assert(s % 2 == 1) by {
        if (lo + off) % 2 == 0 {
            lemma_mod_adds(lo + off, p, 2);
        }
    }
    let st = (s - lo) / 2;
    assert((s - lo) % 2 == 0) by {
        lemma_sub_mod_noop(s, lo, 2);
    }
    lemma_fundamental_div_mod(s - lo, 2);
    assert(s == lo + 2 * st);
    assert(st < p);
    // (lo + 2i) - s == 2 (i - st)
    let y = i - st;
    assert(lo + 2 * i == s + 2 * y);
    if (lo + 2 * i) % p == 0 {
        assert((2 * y) % p == 0) by {
            lemma_sub_mod_noop(lo + 2 * i, s, p);
            lemma_small_mod(0, p as nat);
        }
        lemma_odd_divides_double(y, p);
        lemma_fundamental_div_mod(y, p);
        let k = y / p;
        assert(y >= 0) by (nonlinear_arith)
            requires y == p * k + 0, y > -p, p > 0;
    }
    if i >= st && y % p == 0 {
        arith::lemma_multiple_of_multiple(2, y, p);
        lemma_mod_adds(s, 2 * y, p);
        lemma_small_mod(0, p as nat);
    }
}

proof fn lemma_survivors_len(lo: nat, k: nat, sp: Seq<u64>)
    ensures
        segment_survivors(lo, k, sp).len() <= k,
    decreases k,
{
    if k > 0 {
        lemma_survivors_len(lo, (k - 1) as nat, sp);
    }
}

/// Sieve the odd numbers in `[lo, lo + SEG_SIZE) ∩ [lo, limit]` with
/// `small_primes`: the result holds, in increasing order, those that no
/// element of `small_primes` divides. `lo` must be odd.
pub fn sieve_segment(lo: u64, limit: u64, small_primes: &[u64]) -> (survivors: Vec<u64>)
    requires
        lo % 2 == 1,
        lo + SEG_SIZE <= u64::MAX,
        limit < u64::MAX,
        forall|j: int|
            0 <= j < small_primes@.len() ==> #[trigger] small_primes@[j] > 0 && (small_primes@[j]
                == 2 || small_primes@[j] % 2 == 1),
    ensures
        nats_of(survivors@) == segment_survivors(
            lo as nat,
            segment_count(lo as nat, limit as nat),
            small_primes@,
        ),
{
    let hi = if lo + SEG_SIZE <= limit + 1 {
        lo + SEG_SIZE
    } else {
        limit + 1
    };
    if lo >= hi {
        let empty: Vec<u64> = Vec::new();
        proof {
            assert(nats_of(empty@) =~= Seq::empty());
        }
        return empty;
    }
    let n: u64 = (hi - lo + 1) / 2;
    let n_bytes: usize = ((n + 7) / 8) as usize;
    let mut composite: Vec<u8> = vec![0u8; n_bytes];
    proof {
        assert forall|i: int| 0 <= i < n implies !#[trigger] bit_at(composite@, i) by {
            lemma_u8_zero_bit((i % 8) as u8);
        }
    }
    let ghost sp = small_primes@;
    let mut pj: usize = 0;
    while pj < small_primes.len()
        invariant
            sp == small_primes@,
            0 <= pj <= sp.len(),
            lo % 2 == 1,
            lo < hi <= lo + SEG_SIZE,
            hi <= u64::MAX,
            n == (hi - lo + 1) / 2,
            composite.len() == n_bytes,
            n_bytes == (n + 7) / 8,
            forall|j: int|
                0 <= j < sp.len() ==> #[trigger] sp[j] > 0 && (sp[j] == 2 || sp[j] % 2 == 1),
            forall|i: int|
                0 <= i < n ==> #[trigger] bit_at(composite@, i) == struck_by_prefix(
                    lo + 2 * i,
                    sp,
                    pj as int,
                ),
        decreases sp.len() - pj,
    {
        let p = small_primes[pj];
        let ghost before = composite@;
        if p != 2 {
            let ghost s = first_odd_multiple(lo as int, p as int);
            let ghost st = (s - lo) / 2;
            proof {
                lemma_first_odd_multiple(lo as int, p as int, 0);
            }
            let rem = lo % p;
            let off = if rem == 0 {
                0
            } else {
                p - rem
            };
            let mut start: u64 = hi;  // no candidate of this segment is a multiple of p
            if off < hi - lo {
                let s0 = lo + off;
                if s0 % 2 == 0 {
                    if p < hi - s0 {
                        start = s0 + p;
                    }
                } else {
                    start = s0;
                }
            }
            // start == s when s < hi, and start == hi otherwise
            assert(start == s || (start == hi && s >= hi));
            if start < hi {
                let mut idx: u64 = (start - lo) / 2;
                while idx < n
                    invariant
                        sp == small_primes@,
                        0 <= pj < sp.len(),
                        p == sp[pj as int],
                        p > 0,
                        p % 2 == 1,
                        lo % 2 == 1,
                        s == lo + 2 * st,
                        st <= idx,
                        idx >= n || (idx - st) % (p as int) == 0,
                        n == (hi - lo + 1) / 2,
                        composite.len() == n_bytes,
                        n_bytes == (n + 7) / 8,
                        forall|i: int|
                            0 <= i < n ==> #[trigger] bit_at(composite@, i) == (bit_at(before, i)
                                || (st <= i < idx && (i - st) % (p as int) == 0)),
                    decreases n - idx,
                {
                    let bi = (idx / 8) as usize;
                    let sh = (idx % 8) as u8;
                    let ghost prev = composite@;
                    let b = composite[bi];
                    composite.set(bi, b | (1u8 << sh));
                    let next = if n - idx <= p {
                        n
                    } else {
                        idx + p
                    };
                    proof {
                        assert(next <= idx + p);
                        assert forall|i: int| 0 <= i < n implies #[trigger] bit_at(composite@, i)
                            == (bit_at(before, i) || (st <= i < next && (i - st) % (p as int)
                            == 0)) by {
                            if i / 8 == bi {
                                lemma_u8_set_bit(b, sh, (i % 8) as u8);
                                lemma_fundamental_div_mod(i, 8);
                                lemma_fundamental_div_mod(idx as int, 8);
                                assert(((i % 8) as u8 == sh) == (i == idx));
                                assert(bit_at(composite@, i) == (bit_at(prev, i) || i == idx));
                            } else {
                                assert(i / 8 < n_bytes) by {
                                    lemma_fundamental_div_mod(i, 8);
                                }
                                assert(composite@[i / 8] == prev[i / 8]);
                                assert(bit_at(composite@, i) == bit_at(prev, i));
                                if i == idx {
                                    assert(i / 8 == bi);
                                }
                            }
                            assert(bit_at(prev, i) == (bit_at(before, i) || (st <= i < idx && (i
                                - st) % (p as int) == 0)));
                            assert((idx - st) % (p as int) == 0);
                            if idx < i < next && (i - st) % (p as int) == 0 {
                                lemma_fundamental_div_mod(i - st, p as int);
                                lemma_fundamental_div_mod(idx - st, p as int);
                                let a = (i - st) / (p as int);
                                let c = (idx - st) / (p as int);
                                assert(false) by (nonlinear_arith)
                                    requires
                                        i - st == p * a + 0,
                                        idx - st == p * c + 0,
                                        idx < i < idx + p,
                                        p > 0,
                                ;
                            }
                        }
                        if next != n {
                            lemma_mod_adds(idx - st, p as int, p as int);
                            lemma_mod_self_0(p as int);
                            assert((next - st) % (p as int) == 0);
                        }
                    }
                    idx = next;
                }
                proof {
                    assert forall|i: int| 0 <= i < n implies #[trigger] bit_at(composite@, i)
                        == struck_by_prefix(lo + 2 * i, sp, pj + 1) by {
                        lemma_first_odd_multiple(lo as int, p as int, i);
                        if struck_by_prefix(lo + 2 * i, sp, pj + 1) && !struck_by_prefix(
                            lo + 2 * i,
                            sp,
                            pj as int,
                        ) {
                            let j = choose|j: int|
                                0 <= j < pj + 1 && (lo + 2 * i) % (#[trigger] sp[j] as int) == 0;
                            assert(j == pj);
                        }
                        if (lo + 2 * i) % (p as int) == 0 {
                            assert(struck_by_prefix(lo + 2 * i, sp, pj + 1));
                        }
                    }
                }
            } else {
                proof {
                    assert forall|i: int| 0 <= i < n implies #[trigger] bit_at(composite@, i)
                        == struck_by_prefix(lo + 2 * i, sp, pj + 1) by {
                        lemma_first_odd_multiple(lo as int, p as int, i);
                        if struck_by_prefix(lo + 2 * i, sp, pj + 1) && !struck_by_prefix(
                            lo + 2 * i,
                            sp,
                            pj as int,
                        ) {
                            let j = choose|j: int|
                                0 <= j < pj + 1 && (lo + 2 * i) % (#[trigger] sp[j] as int) == 0;
                            assert(j == pj);
                            assert(false);
                        }
                    }
                }
            }
        } else {
            proof {
                assert forall|i: int| 0 <= i < n implies #[trigger] bit_at(composite@, i)
                    == struck_by_prefix(lo + 2 * i, sp, pj + 1) by {
                    if struck_by_prefix(lo + 2 * i, sp, pj + 1) && !struck_by_prefix(
                        lo + 2 * i,
                        sp,
                        pj as int,
                    ) {
                        let j = choose|j: int|
                            0 <= j < pj + 1 && (lo + 2 * i) % (#[trigger] sp[j] as int) == 0;
                        assert(j == pj);
                        lemma_mod_adds(lo as int, 2 * i, 2);
                        arith::lemma_multiple_of_multiple(i, 2, 2);
                        lemma_mod_self_0(2);
                        assert(false);
                    }
                }
            }
        }
        pj = pj + 1;
    }
    let mut survivors: Vec<u64> = Vec::new();
    let mut i: u64 = 0;
    proof {
        assert(nats_of(survivors@) =~= Seq::empty());
        assert(segment_count(lo as nat, limit as nat) == n);
    }
    while i < n
        invariant
            sp == small_primes@,
            pj == sp.len(),
            lo < hi <= lo + SEG_SIZE,
            hi <= u64::MAX,
            i <= n,
            n == (hi - lo + 1) / 2,
            composite.len() == n_bytes,
            n_bytes == (n + 7) / 8,
            forall|i: int|
                0 <= i < n ==> #[trigger] bit_at(composite@, i) == struck_by_prefix(
                    lo + 2 * i,
                    sp,
                    pj as int,
                ),
            nats_of(survivors@) == segment_survivors(lo as nat, i as nat, sp),
        decreases n - i,
    {
        let bi = (i / 8) as usize;
        let sh = (i % 8) as u8;
        if composite[bi] & (1u8 << sh) == 0 {
            proof {
                assert(!bit_at(composite@, i as int));
                assert(!struck(lo + 2 * i, sp));
                arith::lemma_nats_of_push(survivors@, (lo + 2 * i) as u64);
            }
            survivors.push(lo + 2 * i);
        } else {
            proof {
                assert(bit_at(composite@, i as int));
                let j = choose|j: int|
                    0 <= j < pj && (lo + 2 * i) % (#[trigger] sp[j] as int) == 0;
                assert(struck(lo + 2 * i, sp));
            }
        }
        i = i + 1;
    }
    survivors
}


/// The twin prime pairs `(q - 2, q)` with `q < b`, in increasing order.
pub open spec fn twin_pairs_below(b: nat) -> Seq<(nat, nat)>
    decreases b,
{
    if b == 0 {
        Seq::empty()
    } else {
        let q = (b - 1) as nat;
        if q >= 2 && is_prime(q as int) && is_prime(q - 2) {
            twin_pairs_below(q).push(((q - 2) as nat, q))
        } else {
            twin_pairs_below(q)
        }
    }
}

/// The values of a sequence of pairs of `u64`s, as pairs of naturals.
pub open spec fn pairs_of(s: Seq<(u64, u64)>) -> Seq<(nat, nat)> {
    s.map_values(|pr: (u64, u64)| (pr.0 as nat, pr.1 as nat))
}

pub open spec fn min_nat(a: nat, b: nat) -> nat {
    if a <= b {
        a
    } else {
        b
    }
}

proof fn lemma_pairs_of_push(s: Seq<(u64, u64)>, a: u64, b: u64)
    ensures
        pairs_of(s.push((a, b))) == pairs_of(s).push((a as nat, b as nat)),
{
    assert(pairs_of(s.push((a, b))) =~= pairs_of(s).push((a as nat, b as nat)));
}

proof fn lemma_twin_gap(m: nat, n: nat)
    requires
        m <= n,
        forall|x: int| m <= x < n ==> !#[trigger] is_prime(x),
    ensures
        twin_pairs_below(n) == twin_pairs_below(m),
    decreases n - m,
{
    if m < n {
        lemma_twin_gap(m, (n - 1) as nat);
    }
}

pub proof fn lemma_even_prime(a: int)
    requires
        is_prime(a),
        a % 2 == 0,
    ensures
        a == 2,
{
    if a > 2 {
        assert(a % 2 != 0);
    }
}

/// Passing from one prime `a` to the next prime `e`, the list of twin pairs
/// below a bound gains `(a, e)` exactly when `e == a + 2` and `e` is below
/// the bound.
proof fn lemma_twin_step(a: nat, e: nat, lim: nat)
    requires
        is_prime(a as int),
        is_prime(e as int),
        a < e,
        forall|x: int| a < x < e ==> !#[trigger] is_prime(x),
    ensures
        twin_pairs_below(min_nat(e + 1, lim)) == (if e == a + 2 && e < lim {
            twin_pairs_below(min_nat(a + 1, lim)).push((a, e))
        } else {
            twin_pairs_below(min_nat(a + 1, lim))
        }),
{
    if e < lim {
        lemma_twin_gap(a + 1, e);
        if e == a + 1 {
            if a % 2 == 0 {
                lemma_even_prime(a as int);
            } else {
                lemma_even_prime(e as int);
            }
            assert(!is_prime(e - 2));
        } else if e > a + 2 {
            assert(!is_prime(e - 2));
        }
    } else if a + 1 < lim {
        lemma_twin_gap(a + 1, lim);
    }
}

proof fn lemma_struck_iff_composite(x: int, sp: Seq<u64>, r: nat, limit: nat)
    requires
        nats_of(sp) == primes_below(r + 1),
        r * r > limit,
        r < x <= limit,
        r >= 2,
    ensures
        struck(x, sp) <==> !is_prime(x),
{
    let ps = primes_below(r + 1);
    arith::lemma_primes_in_props(0, r + 1);
    assert(sp.len() == ps.len());
    if !is_prime(x) {
        let p = arith::lemma_composite_has_small_prime_factor(x);
        assert(p <= r) by (nonlinear_arith)
            requires p * p <= x, x <= limit, limit < r * r, p >= 2, r >= 2;
        arith::lemma_primes_in_contains(0, r + 1, p as nat);
        let j = choose|j: int| 0 <= j < ps.len() && ps[j] == p;
        assert(nats_of(sp)[j] == sp[j] as nat);
        assert(x % (sp[j] as int) == 0);
    }
    if struck(x, sp) {
        let j = choose|j: int| 0 <= j < sp.len() && x % (#[trigger] sp[j] as int) == 0;
        assert(nats_of(sp)[j] == sp[j] as nat);
        assert(ps[j] <= r);
        assert(2 <= sp[j] < x);
    }
}

/// Above the square root of the limit, what the segment sieve leaves are
/// exactly the primes.
pub proof fn lemma_segment_is_primes(lo: nat, k: nat, sp: Seq<u64>, r: nat, limit: nat)
    requires
        nats_of(sp) == primes_below(r + 1),
        r * r > limit,
        r >= 2,
        lo % 2 == 1,
        lo > r,
        lo + 2 * k <= limit + 2,
    ensures
        segment_survivors(lo, k, sp) == primes_in(lo, lo + 2 * k),
    decreases k,
{
    if k > 0 {
        let x = lo + 2 * (k - 1);
        lemma_segment_is_primes(lo, (k - 1) as nat, sp, r, limit);
        lemma_struck_iff_composite(x, sp, r, limit);
        let y = x + 1;
        assert(y % 2 == 0) by {
            assert(y == lo + 1 + 2 * (k - 1));
        }
        assert(!is_prime(y)) by {
            if is_prime(y) {
                lemma_even_prime(y);
            }
        }
        assert(primes_in(lo, lo + 2 * k) == primes_in(lo, (y) as nat));
    } else {
        assert(primes_in(lo, lo) =~= Seq::empty());
    }
}

/// The twin prime pairs below a limit, produced a batch at a time: the
/// pairs among the primes up to the square root of the limit first, then
/// those each sieve segment completes. Only one segment is held at a time.
pub struct TwinPrimeStream {
    limit: u64,
    sqrt_limit: u64,
    small_primes: Vec<u64>,
    lo: u64,
    last: u64,
    started: bool,
    finished: bool,
    covered: Ghost<nat>,
}

impl TwinPrimeStream {
    /// The limit: the pairs `(p, p + 2)` with `p + 2 < limit` are produced.
    pub closed spec fn limit(&self) -> nat {
        self.limit as nat
    }

    /// The pairs produced so far are `twin_pairs_below(covered())`.
    pub closed spec fn covered(&self) -> nat {
        self.covered@
    }

    /// A measure that every batch decreases.
    pub closed spec fn remaining(&self) -> nat {
        if self.finished {
            0
        } else if !self.started {
            (self.limit + SEG_SIZE + 2) as nat
        } else {
            (self.limit + SEG_SIZE + 1 - self.lo) as nat
        }
    }

    /// The state is consistent.
    pub closed spec fn wf(&self) -> bool {
        let r = self.sqrt_limit as nat;
        let sp = self.small_primes@;
        let lim = self.limit as nat;
        &&& self.covered@ <= lim
        &&& self.finished ==> self.covered@ == lim
        &&& !self.finished ==> {
            &&& 5 <= self.limit
            &&& self.limit + SEG_SIZE <= u64::MAX
            &&& r * r > lim
            &&& r >= 2
            &&& r <= lim
            &&& nats_of(sp) == primes_below(r + 1)
            &&& forall|j: int|
                0 <= j < sp.len() ==> #[trigger] sp[j] > 0 && (sp[j] == 2 || sp[j] % 2 == 1)
            &&& !self.started ==> self.covered@ == 3
            &&& self.started ==> {
                &&& self.lo % 2 == 1
                &&& self.lo > r
                &&& self.lo <= self.limit
                &&& is_prime(self.last as int)
                &&& self.last < self.lo
                &&& forall|x: int|
                    self.last < x < self.lo ==> !#[trigger] is_prime(x)
                &&& self.covered@ == min_nat(self.last as nat + 1, lim)
            }
        }
    }

    /// A stream of the twin prime pairs below `limit`; nothing is produced yet.
    pub fn new(limit: u64) -> (s: TwinPrimeStream)
        requires
            limit + SEG_SIZE <= u64::MAX,
            limit < (isize::MAX - 1) * (isize::MAX - 1),
        ensures
            s.wf(),
            s.limit() == limit,
            twin_pairs_below(s.covered()) == Seq::<(nat, nat)>::empty(),
    {
        proof {
            assert(twin_pairs_below(0) =~= Seq::empty());
            assert(twin_pairs_below(1) =~= Seq::empty());
            assert(twin_pairs_below(2) =~= Seq::empty());
            assert(!is_prime(1));
            assert(!is_prime(0));
            assert(twin_pairs_below(3) =~= Seq::empty());
            assert(twin_pairs_below(4) =~= Seq::empty());
            assert(!is_prime(4)) by {
                assert(4int % 2 == 0);
            }
            assert(twin_pairs_below(5) =~= Seq::empty());
        }
        if limit < 5 {
            proof {
                assert(twin_pairs_below(limit as nat) =~= Seq::empty());
            }
            return TwinPrimeStream {
                limit,
                sqrt_limit: 0,
                small_primes: Vec::new(),
                lo: 0,
                last: 0,
                started: false,
                finished: true,
                covered: Ghost(limit as nat),
            };
        }
        let root = arith::isqrt(limit);
        assert(root < isize::MAX - 1) by (nonlinear_arith)
            requires
                root * root <= limit,
                limit < (isize::MAX - 1) * (isize::MAX - 1),
                isize::MAX > 1,
        ;
        assert(root >= 2) by (nonlinear_arith)
            requires limit < (root + 1) * (root + 1), limit >= 5;
        assert(root + 1 <= limit) by (nonlinear_arith)
            requires root * root <= limit, root >= 2;
        let sqrt_limit = root + 1;
        let small_primes = small_sieve(sqrt_limit);
        let ghost r: nat = sqrt_limit as nat;
        let ghost sp = small_primes@;
        let ghost ps = primes_below(r + 1);
        proof {
            assert(r * r > limit);
            arith::lemma_primes_in_props(0, r + 1);
            assert forall|j: int| 0 <= j < sp.len() implies #[trigger] sp[j] > 0 && (sp[j] == 2
                || sp[j] % 2 == 1) by {
                assert(nats_of(sp)[j] == sp[j] as nat);
                assert(is_prime(ps[j] as int));
                if sp[j] % 2 == 0 {
                    lemma_even_prime(sp[j] as int);
                }
            }
        }
        TwinPrimeStream {
            limit,
            sqrt_limit,
            small_primes,
            lo: 0,
            last: 0,
            started: false,
            finished: false,
            covered: Ghost(3),
        }
    }

    /// The next batch of pairs, in increasing order, or `None` once every
    /// pair below the limit has been produced.
    pub fn next_pairs(&mut self) -> (r: Option<Vec<(u64, u64)>>)
        requires
            old(self).wf(),
        ensures
            final(self).wf(),
            final(self).limit() == old(self).limit(),
            final(self).remaining() <= old(self).remaining(),
            match r {
                Some(v) => twin_pairs_below(final(self).covered()) == twin_pairs_below(
                    old(self).covered(),
                ) + pairs_of(v@) && final(self).remaining() < old(self).remaining(),
                None => old(self).covered() == old(self).limit() && final(self).covered() == old(
                    self,
                ).covered(),
            },
    {
        if self.finished {
            return None;
        }
        let limit = self.limit;
        let ghost r: nat = self.sqrt_limit as nat;
        let ghost sp = self.small_primes@;
        let ghost ps = primes_below(r + 1);
        let mut pairs: Vec<(u64, u64)> = Vec::new();
        if !self.started {
            proof {
                arith::lemma_primes_in_props(0, r + 1);
                arith::lemma_primes_in_gaps(0, r + 1, 2);
                assert(is_prime(2));
                assert(nats_of(sp).len() == ps.len());
                assert(ps[0] == 2);
                assert(nats_of(sp)[0] == sp[0] as nat);
                assert(pairs_of(pairs@) =~= Seq::empty());
                assert(min_nat(sp[0] as nat + 1, limit as nat) == 3);
                assert(twin_pairs_below(3) + pairs_of(pairs@) =~= twin_pairs_below(3));
            }
            let mut k: usize = 1;
            while k < self.small_primes.len()
                invariant
                    sp == self.small_primes@,
                    nats_of(sp) == ps,
                    ps == primes_below(r + 1),
                    1 <= k <= sp.len(),
                    5 <= limit,
                    limit + SEG_SIZE <= u64::MAX,
                    twin_pairs_below(min_nat(sp[k - 1] as nat + 1, limit as nat)) == twin_pairs_below(
                        3,
                    ) + pairs_of(pairs@),
                decreases sp.len() - k,
            {
                let a = self.small_primes[k - 1];
                let e = self.small_primes[k];
                proof {
                    arith::lemma_primes_in_props(0, r + 1);
                    assert(nats_of(sp)[k - 1] == a as nat);
                    assert(nats_of(sp)[k as int] == e as nat);
                    assert forall|x: int| a < x < e implies !#[trigger] is_prime(x) by {
                        if is_prime(x) {
                            arith::lemma_primes_in_gaps(0, r + 1, x);
                            assert(!(ps[k - 1] < x < ps[k - 1 + 1]));
                        }
                    }
                    lemma_twin_step(a as nat, e as nat, limit as nat);
                }
                if e - a == 2 && e < limit {
                    proof {
                        lemma_pairs_of_push(pairs@, a, e);
                        assert(twin_pairs_below(3) + pairs_of(pairs@).push((a as nat, e as nat))
                            =~= (twin_pairs_below(3) + pairs_of(pairs@)).push((a as nat, e as nat)));
                    }
                    pairs.push((a, e));
                }
                k = k + 1;
            }
            let last = self.small_primes[self.small_primes.len() - 1];
            let sqrt_limit = self.sqrt_limit;
            let lo: u64 = sqrt_limit + 1 + (sqrt_limit % 2);
            proof {
                arith::lemma_primes_in_props(0, r + 1);
                assert(nats_of(sp)[sp.len() - 1] == last as nat);
                assert forall|x: int| last < x < lo implies !#[trigger] is_prime(x) by {
                    if is_prime(x) {
                        if x <= r {
                            arith::lemma_primes_in_gaps(0, r + 1, x);
                        } else {
                            assert(x == r + 1);
                            assert(x % 2 == 0);
                            lemma_even_prime(x);
                        }
                    }
                }
            }
            self.started = true;
            self.last = last;
            self.lo = lo;
            if lo > limit {
                proof {
                    if last + 1 < limit {
                        lemma_twin_gap((last + 1) as nat, limit as nat);
                    }
                }
                self.finished = true;
                self.covered = Ghost(limit as nat);
            } else {
                self.covered = Ghost(min_nat(last as nat + 1, limit as nat));
            }
            return Some(pairs);
        }
        let lo = self.lo;
        let lp = self.last;
        let ghost start = self.covered@;
        let seg = sieve_segment(lo, limit, &self.small_primes);
        let ghost count = segment_count(lo as nat, limit as nat);
        let ghost b: nat = lo as nat + 2 * count;
        let ghost hi = segment_end(lo as nat, limit as nat);
        let ghost sg = nats_of(seg@);
        proof {
            assert(lo + 2 * count <= limit + 2);
            lemma_segment_is_primes(lo as nat, count, sp, r, limit as nat);
            assert(sg == primes_in(lo as nat, b));
            arith::lemma_primes_in_props(lo as nat, b);
            assert(hi <= b);
            assert(b <= hi + 1);
            assert forall|x: int| hi <= x < b implies !#[trigger] is_prime(x) by {
                assert(x == b - 1);
                assert(x == lo + 2 * (count - 1) + 1);
                assert(x % 2 == 0);
                if is_prime(x) {
                    lemma_even_prime(x);
                }
            }
            assert(pairs_of(pairs@) =~= Seq::empty());
            assert(twin_pairs_below(start) + pairs_of(pairs@) =~= twin_pairs_below(start));
        }
        let mut new_last = lp;
        if seg.len() > 0 {
            let fp = seg[0];
            proof {
                assert(sg[0] == fp as nat);
                assert forall|x: int| lp < x < fp implies !#[trigger] is_prime(x) by {
                    if is_prime(x) && x >= lo {
                        arith::lemma_primes_in_gaps(lo as nat, b, x);
                    }
                }
                lemma_twin_step(lp as nat, fp as nat, limit as nat);
            }
            if fp == lp + 2 && fp < limit {
                proof {
                    lemma_pairs_of_push(pairs@, lp, fp);
                    assert(twin_pairs_below(start) + pairs_of(pairs@).push((lp as nat, fp as nat))
                        =~= (twin_pairs_below(start) + pairs_of(pairs@)).push((lp as nat, fp as nat)));
                }
                pairs.push((lp, fp));
            }
            let mut k: usize = 1;
            while k < seg.len()
                invariant
                    sg == nats_of(seg@),
                    sg == primes_in(lo as nat, b),
                    1 <= k <= seg.len(),
                    limit + SEG_SIZE <= u64::MAX,
                    twin_pairs_below(min_nat(seg@[k - 1] as nat + 1, limit as nat)) == twin_pairs_below(
                        start,
                    ) + pairs_of(pairs@),
                decreases seg.len() - k,
            {
                let a = seg[k - 1];
                let e = seg[k];
                proof {
                    arith::lemma_primes_in_props(lo as nat, b);
                    assert(sg[k - 1] == a as nat);
                    assert(sg[k as int] == e as nat);
                    assert forall|x: int| a < x < e implies !#[trigger] is_prime(x) by {
                        if is_prime(x) {
                            arith::lemma_primes_in_gaps(lo as nat, b, x);
                            assert(!(sg[k - 1] < x < sg[k - 1 + 1]));
                        }
                    }
                    lemma_twin_step(a as nat, e as nat, limit as nat);
                }
                if e - a == 2 && e < limit {
                    proof {
                        lemma_pairs_of_push(pairs@, a, e);
                        assert(twin_pairs_below(start) + pairs_of(pairs@).push((a as nat, e as nat))
                            =~= (twin_pairs_below(start) + pairs_of(pairs@)).push((a as nat, e as nat)));
                    }
                    pairs.push((a, e));
                }
                k = k + 1;
            }
            new_last = seg[seg.len() - 1];
            proof {
                assert(sg[seg.len() - 1] == new_last as nat);
                arith::lemma_primes_in_props(lo as nat, b);
                assert forall|x: int| new_last < x < min_nat((lo + SEG_SIZE) as nat, limit as nat + 1)
                    implies !#[trigger] is_prime(x) by {
                    if is_prime(x) {
                        arith::lemma_primes_in_gaps(lo as nat, b, x);
                    }
                }
            }
        } else {
            proof {
                assert forall|x: int| lp < x < min_nat((lo + SEG_SIZE) as nat, limit as nat + 1)
                    implies !#[trigger] is_prime(x) by {
                    if is_prime(x) && x >= lo {
                        arith::lemma_primes_in_gaps(lo as nat, b, x);
                    }
                }
            }
        }
        let next_lo = lo + SEG_SIZE;
        self.last = new_last;
        self.lo = next_lo;
        if next_lo > limit {
            proof {
                if new_last + 1 < limit {
                    lemma_twin_gap((new_last + 1) as nat, limit as nat);
                }
            }
            self.finished = true;
            self.covered = Ghost(limit as nat);
        } else {
            self.covered = Ghost(min_nat(new_last as nat + 1, limit as nat));
        }
        Some(pairs)
    }
}

/// Find all twin prime pairs `(p, p + 2)` with `p + 2 < limit`, in
/// increasing order.
pub fn find_twin_primes(limit: u64) -> (pairs: Vec<(u64, u64)>)
    requires
        limit + SEG_SIZE <= u64::MAX,
        limit < (isize::MAX - 1) * (isize::MAX - 1),
    ensures
        pairs_of(pairs@) == twin_pairs_below(limit as nat),
{
    let mut stream = TwinPrimeStream::new(limit);
    let mut pairs: Vec<(u64, u64)> = Vec::new();
    let mut done = false;
    proof {
        assert(pairs_of(pairs@) =~= Seq::empty());
    }
    while !done
        invariant
            stream.wf(),
            stream.limit() == limit,
            pairs_of(pairs@) == twin_pairs_below(stream.covered()),
            done ==> stream.covered() == limit,
        decreases stream.remaining(), if done { 0int } else { 1int },
    {
        match stream.next_pairs() {
            Some(batch) => {
                let mut k: usize = 0;
                let ghost before = pairs_of(pairs@);
                while k < batch.len()
                    invariant
                        k <= batch@.len(),
                        pairs_of(pairs@) == before + pairs_of(batch@).take(k as int),
                    decreases batch@.len() - k,
                {
                    proof {
                        lemma_pairs_of_push(pairs@, batch@[k as int].0, batch@[k as int].1);
                        assert(pairs_of(batch@).take(k + 1) =~= pairs_of(batch@).take(k as int).push(
                            (batch@[k as int].0 as nat, batch@[k as int].1 as nat),
                        ));
                    }
                    pairs.push(batch[k]);
                    k = k + 1;
                }
                assert(pairs_of(batch@).take(batch@.len() as int) =~= pairs_of(batch@));
            },
            None => {
                done = true;
            },
        }
    }
    pairs
}

/// Format an integer with thousands separators (e.g. 1_000_000 -> "1,000,000").
pub fn fmt_int(n: u64) -> (s: String)
    ensures
        s@ == digits::with_commas(n as nat),
{
    digits::fmt_int(n)
}

} // verus!
