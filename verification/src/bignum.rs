//! Arbitrary-size natural numbers held as little-endian base-2^32 limbs,
//! with the arithmetic the series and searches of this library need. Each
//! operation is proved against the arithmetic it stands for.
use vstd::arithmetic::div_mod::*;
use vstd::arithmetic::mul::*;
use crate::digits::{self, decimal, padded_digits, pow10};
use vstd::prelude::*;
use vstd::string::{StrSliceExecFns, StringExecFns};

verus! {

/// The limb base, 2^32.
pub open spec fn base() -> nat {
    4294967296
}

/// `base()^n`.
pub open spec fn pow_base(n: nat) -> nat
    decreases n,
{
    if n == 0 {
        1
    } else {
        base() * pow_base((n - 1) as nat)
    }
}

/// Limb `i` of `s`, with zeros beyond its end.
pub open spec fn digit(s: Seq<u32>, i: int) -> nat {
    if 0 <= i < s.len() {
        s[i] as nat
    } else {
        0
    }
}

/// The value of the limbs below position `n`.
pub open spec fn low_value(s: Seq<u32>, n: nat) -> nat
    decreases n,
{
    if n == 0 {
        0
    } else {
        low_value(s, (n - 1) as nat) + digit(s, n - 1) * pow_base((n - 1) as nat)
    }
}

/// The value of the limbs in positions `[i, n)`, scaled down by `base()^i`.
pub open spec fn high_value(s: Seq<u32>, i: nat, n: nat) -> nat
    decreases n - i,
{
    if i >= n {
        0
    } else {
        digit(s, i as int) + base() * high_value(s, i + 1, n)
    }
}

/// The value of a sequence of limbs.
pub open spec fn limbs_value(s: Seq<u32>) -> nat {
    low_value(s, s.len())
}

pub proof fn lemma_pow_base_pos(n: nat)
    ensures
        pow_base(n) >= 1,
    decreases n,
{
    if n > 0 {
        lemma_pow_base_pos((n - 1) as nat);
    }
}

pub proof fn lemma_pow_base_add(i: nat, j: nat)
    ensures
        pow_base(i + j) == pow_base(i) * pow_base(j),
    decreases j,
{
    if j > 0 {
        lemma_pow_base_add(i, (j - 1) as nat);
        let a = pow_base(i);
        let b = pow_base((j - 1) as nat);
        let c = pow_base((i + j - 1) as nat);
        assert(pow_base(i + j) == base() * c);
        assert(pow_base(j) == base() * b);
        assert(base() * c == a * (base() * b)) by (nonlinear_arith)
            requires c == a * b;
    } else {
        assert(pow_base(i) * 1 == pow_base(i));
    }
}

pub proof fn lemma_low_value_bound(s: Seq<u32>, n: nat)
    ensures
        low_value(s, n) < pow_base(n),
    decreases n,
{
    if n > 0 {
        let m = (n - 1) as nat;
        lemma_low_value_bound(s, m);
        let d = digit(s, m as int);
        assert(d <= base() - 1);
        assert(low_value(s, m) + d * pow_base(m) < pow_base(n)) by (nonlinear_arith)
            requires
                low_value(s, m) < pow_base(m),
                d <= base() - 1,
                pow_base(n) == base() * pow_base(m),
        ;
    }
}

/// Splitting the value at position `m`.
pub proof fn lemma_low_value_split(s: Seq<u32>, m: nat, n: nat)
    requires
        m <= n,
    ensures
        low_value(s, n) == low_value(s, m) + pow_base(m) * high_value(s, m, n),
    decreases n - m,
{
    if m < n {
        lemma_low_value_split(s, m + 1, n);
        // low(n) = low(m+1) + pb(m+1) * high(m+1, n)
        //        = low(m) + d * pb(m) + pb(m) * base * high(m+1, n)
        assert(pow_base(m + 1) == base() * pow_base(m));
        let d = digit(s, m as int);
        let h = high_value(s, m + 1, n);
        assert(low_value(s, m + 1) == low_value(s, m) + d * pow_base(m));
        assert(pow_base(m + 1) * h == pow_base(m) * (base() * h)) by (nonlinear_arith)
            requires pow_base(m + 1) == base() * pow_base(m);
        assert(pow_base(m) * high_value(s, m, n) == d * pow_base(m) + pow_base(m) * (base() * h))
            by (nonlinear_arith)
            requires high_value(s, m, n) == d + base() * h;
        assert(low_value(s, n) == low_value(s, m + 1) + pow_base(m + 1) * h);
    } else {
        assert(high_value(s, m, n) == 0);
        assert(pow_base(m) * 0 == 0);
    }
}

/// The low value only depends on the limbs below `n`.
pub proof fn lemma_low_value_ext(s: Seq<u32>, t: Seq<u32>, n: nat)
    requires
        forall|i: int| 0 <= i < n ==> digit(s, i) == digit(t, i),
    ensures
        low_value(s, n) == low_value(t, n),
    decreases n,
{
    if n > 0 {
        lemma_low_value_ext(s, t, (n - 1) as nat);
    }
}

/// The high value only depends on the limbs in `[i, n)`.
pub proof fn lemma_high_value_ext(s: Seq<u32>, t: Seq<u32>, i: nat, n: nat)
    requires
        forall|k: int| i <= k < n ==> digit(s, k) == digit(t, k),
    ensures
        high_value(s, i, n) == high_value(t, i, n),
    decreases n - i,
{
    if i < n {
        lemma_high_value_ext(s, t, i + 1, n);
    }
}

/// Past the last limb, the low value no longer grows.
pub proof fn lemma_low_value_past_end(s: Seq<u32>, n: nat)
    requires
        n >= s.len(),
    ensures
        low_value(s, n) == limbs_value(s),
    decreases n,
{
    if n > s.len() {
        lemma_low_value_past_end(s, (n - 1) as nat);
        assert(digit(s, n - 1) == 0);
        assert(0 * pow_base((n - 1) as nat) == 0);
    }
}

/// Replacing the limb at `k < n` changes the low value by the difference
/// times `base()^k`.
pub proof fn lemma_low_value_update(s: Seq<u32>, k: int, v: u32, n: nat)
    requires
        0 <= k < s.len(),
        k < n,
    ensures
        low_value(s.update(k, v), n) + s[k] * pow_base(k as nat) == low_value(s, n) + v * pow_base(
            k as nat,
        ),
    decreases n,
{
    let m = (n - 1) as nat;
    if m == k {
        lemma_low_value_ext(s.update(k, v), s, m);
    } else {
        lemma_low_value_update(s, k, v, m);
    }
}

proof fn lemma_push_low_value(s: Seq<u32>, x: u32)
    ensures
        limbs_value(s.push(x)) == limbs_value(s) + x * pow_base(s.len()),
{
    lemma_low_value_ext(s.push(x), s, s.len());
}

proof fn lemma_zero_low_value(n: nat)
    ensures
        low_value(Seq::<u32>::empty(), n) == 0,
    decreases n,
{
    if n > 0 {
        lemma_zero_low_value((n - 1) as nat);
        assert(digit(Seq::<u32>::empty(), n - 1) == 0);
        assert(0 * pow_base((n - 1) as nat) == 0);
    }
}

/// Two limb sequences that agree above position `k`, where the first has the
/// smaller limb, compare the same way.
proof fn lemma_compare_at(a: Seq<u32>, b: Seq<u32>, k: nat, n: nat)
    requires
        a.len() <= n,
        b.len() <= n,
        k < n,
        forall|j: int| k < j < n ==> digit(a, j) == digit(b, j),
        digit(a, k as int) < digit(b, k as int),
    ensures
        limbs_value(a) < limbs_value(b),
{
    lemma_low_value_past_end(a, n);
    lemma_low_value_past_end(b, n);
    lemma_low_value_split(a, k + 1, n);
    lemma_low_value_split(b, k + 1, n);
    lemma_high_value_ext(a, b, k + 1, n);
    lemma_low_value_bound(a, k);
    let da = digit(a, k as int);
    let db = digit(b, k as int);
    let p = pow_base(k);
    assert(low_value(a, k + 1) < low_value(b, k + 1)) by (nonlinear_arith)
        requires
            low_value(a, k + 1) == low_value(a, k) + da * p,
            low_value(b, k + 1) == low_value(b, k) + db * p,
            low_value(a, k) < p,
            da < db,
            low_value(b, k) >= 0,
    ;
}

/// The digits of the 9-digit chunks of a number, the most significant
/// chunk (the last) first, each with leading zeros.
pub open spec fn chunk_digits(cs: Seq<u32>) -> Seq<char>
    decreases cs.len(),
{
    if cs.len() == 0 {
        Seq::empty()
    } else {
        padded_digits(cs.last() as nat, 9) + chunk_digits(cs.drop_last())
    }
}

/// `b^e`.
pub open spec fn nat_pow(b: nat, e: nat) -> nat
    decreases e,
{
    if e == 0 {
        1
    } else {
        b * nat_pow(b, (e - 1) as nat)
    }
}

/// `2^k`.
pub open spec fn two_pow(k: nat) -> nat
    decreases k,
{
    if k == 0 {
        1
    } else {
        2 * two_pow((k - 1) as nat)
    }
}

pub proof fn lemma_two_pow_pos(k: nat)
    ensures
        two_pow(k) >= 1,
    decreases k,
{
    if k > 0 {
        lemma_two_pow_pos((k - 1) as nat);
    }
}

/// The number of bits of `x`: 0 for 0, else one more than that of `x / 2`.
pub open spec fn bits_of(x: nat) -> nat
    decreases x,
{
    if x == 0 {
        0
    } else {
        1 + bits_of(x / 2)
    }
}

pub proof fn lemma_two_pow_monotone(j: nat, k: nat)
    requires
        j <= k,
    ensures
        two_pow(j) <= two_pow(k),
    decreases k,
{
    if j < k {
        lemma_two_pow_monotone(j, (k - 1) as nat);
        lemma_two_pow_pos((k - 1) as nat);
    }
}

/// `bits_of(x)` is the least `b` with `x < 2^b`.
pub proof fn lemma_bits_of(x: nat)
    ensures
        x < two_pow(bits_of(x)),
        x == 0 || two_pow((bits_of(x) - 1) as nat) <= x,
    decreases x,
{
    if x > 0 {
        lemma_bits_of(x / 2);
        let b = bits_of(x / 2);
        assert(two_pow(b + 1) == 2 * two_pow(b));
        if x / 2 > 0 {
            assert(two_pow((b - 1) as nat) <= x / 2);
            assert(two_pow(b) == 2 * two_pow((b - 1) as nat));
        } else {
            assert(two_pow(0) == 1);
        }
    }
}

/// A `b` with `2^(b-1) <= x < 2^b` (or `b == 0 == x`) is `bits_of(x)`.
pub proof fn lemma_bits_unique(x: nat, b: nat)
    requires
        x < two_pow(b),
        b == 0 || two_pow((b - 1) as nat) <= x,
    ensures
        b == bits_of(x),
{
    lemma_bits_of(x);
    let c = bits_of(x);
    if b < c {
        lemma_two_pow_monotone(b, (c - 1) as nat);
    }
    if c < b {
        lemma_two_pow_monotone(c, (b - 1) as nat);
    }
}

/// A natural number of any size.
pub struct BigNat {
    limbs: Vec<u32>,
}

/// Drop the zero limbs at the top: what is left is the longest prefix that
/// is empty or ends in a nonzero limb, and the value stays the same.
fn trim(limbs: &mut Vec<u32>)
    ensures
        final(limbs)@.len() <= old(limbs)@.len(),
        final(limbs)@ == old(limbs)@.subrange(0, final(limbs)@.len() as int),
        forall|i: int|
            final(limbs)@.len() <= i < old(limbs)@.len() ==> #[trigger] old(limbs)@[i] == 0,
        final(limbs)@.len() == 0 || final(limbs)@[final(limbs)@.len() - 1] != 0,
        limbs_value(final(limbs)@) == limbs_value(old(limbs)@),
{
    while limbs.len() > 0 && limbs[limbs.len() - 1] == 0
        invariant
            limbs@.len() <= old(limbs)@.len(),
            limbs@ == old(limbs)@.subrange(0, limbs@.len() as int),
            forall|i: int| limbs@.len() <= i < old(limbs)@.len() ==> #[trigger] old(limbs)@[i] == 0,
            limbs_value(limbs@) == limbs_value(old(limbs)@),
        decreases limbs@.len(),
    {
        let ghost before = limbs@;
        let n = limbs.len();
        limbs.pop();
        proof {
            assert(limbs@ =~= before.drop_last());
            lemma_low_value_ext(limbs@, before, (n - 1) as nat);
            assert(digit(before, n - 1) == 0);
            assert(low_value(before, n as nat) == low_value(before, (n - 1) as nat) + digit(
                before,
                n - 1,
            ) * pow_base((n - 1) as nat));
            assert(0 * pow_base((n - 1) as nat) == 0);
        }
    }
}

/// `num / den` in decimal with exactly `digits` places after the point,
/// cut after the last one: the integer part, a point, and the fraction's
/// digits with leading zeros.
pub open spec fn fixed_point_text(num: nat, den: nat, digits: nat) -> Seq<char> {
    let v = num * pow10(digits) / den;
    decimal(v / pow10(digits)) + seq!['.'] + padded_digits(v % pow10(digits), digits)
}

pub proof fn lemma_nat_pow_ten(d: nat)
    ensures
        nat_pow(10, d) == pow10(d),
    decreases d,
{
    if d > 0 {
        lemma_nat_pow_ten((d - 1) as nat);
    }
}

proof fn lemma_pow_base_monotone(i: nat, j: nat)
    requires
        i <= j,
    ensures
        pow_base(i) <= pow_base(j),
{
    lemma_pow_base_add(i, (j - i) as nat);
    lemma_pow_base_pos((j - i) as nat);
    lemma_pow_base_pos(i);
    assert(pow_base(i) * pow_base((j - i) as nat) >= pow_base(i)) by (nonlinear_arith)
        requires
            pow_base((j - i) as nat) >= 1,
            pow_base(i) >= 1,
    ;
}

/// One Newton step for the square root keeps the guess at or above the
/// root: with `q = n / x`, `((x + q) / 2 + 1)^2 > n`.
proof fn lemma_newton_stays_above(n: nat, x: nat, q: nat, y: nat)
    requires
        x > 0,
        n < (q + 1) * x,
        y == (x + q) / 2,
    ensures
        (y + 1) * (y + 1) > n,
{
    let a = x as int;
    let b = (q + 1) as int;
    assert(2 * (y + 1) >= a + b);
    assert((a + b) * (a + b) >= 4 * (a * b)) by (nonlinear_arith);
    assert((2 * (y + 1)) * (2 * (y + 1)) >= (a + b) * (a + b)) by (nonlinear_arith)
        requires
            2 * (y + 1) >= a + b,
            a + b >= 0,
    ;
    assert(4 * ((y + 1) * (y + 1)) == (2 * (y + 1)) * (2 * (y + 1))) by (nonlinear_arith);
    assert(a * b > n) by (nonlinear_arith)
        requires
            n < b * a,
    ;
}

/// Above the root, a Newton step goes down.
proof fn lemma_newton_descends(n: nat, x: nat, q: nat, y: nat)
    requires
        x > 0,
        x * x > n,
        q * x <= n,
        y == (x + q) / 2,
    ensures
        y < x,
{
    assert(q < x) by (nonlinear_arith)
        requires
            q * x <= n,
            x * x > n,
            x > 0,
    ;
}

impl View for BigNat {
    type V = nat;

    closed spec fn view(&self) -> nat {
        limbs_value(self.limbs@)
    }
}

impl BigNat {
    /// The number `x`.
    pub fn from_u64(x: u64) -> (r: BigNat)
        ensures
            r@ == x,
    {
        let mut limbs: Vec<u32> = Vec::new();
        let lo = (x % 4294967296) as u32;
        let hi = (x / 4294967296) as u32;
        limbs.push(lo);
        limbs.push(hi);
        proof {
            assert(x == lo + hi * 4294967296);
            assert(pow_base(0) == 1);
            assert(pow_base(1) == base() * pow_base(0));
            assert(low_value(limbs@, 0) == 0);
            assert(digit(limbs@, 0) == lo);
            assert(digit(limbs@, 1) == hi);
            assert(low_value(limbs@, 1) == low_value(limbs@, 0) + digit(limbs@, 0) * pow_base(0));
            assert(low_value(limbs@, 2) == low_value(limbs@, 1) + digit(limbs@, 1) * pow_base(1));
        }
        BigNat { limbs }
    }

    /// The number 0.
    pub fn zero() -> (r: BigNat)
        ensures
            r@ == 0,
    {
        BigNat { limbs: Vec::new() }
    }

    /// `self + other`.
    pub fn add(&self, other: &BigNat) -> (r: BigNat)
        ensures
            r@ == self@ + other@,
    {
        let a = &self.limbs;
        let b = &other.limbs;
        let n = if a.len() >= b.len() {
            a.len()
        } else {
            b.len()
        };
        let mut limbs: Vec<u32> = Vec::new();
        let mut carry: u64 = 0;
        let mut i: usize = 0;
        while i < n
            invariant
                n == a.len() || n == b.len(),
                a.len() <= n,
                b.len() <= n,
                i <= n,
                limbs.len() == i,
                carry <= 1,
                low_value(limbs@, i as nat) + carry * pow_base(i as nat) == low_value(a@, i as nat)
                    + low_value(b@, i as nat),
            decreases n - i,
        {
            let ai: u64 = if i < a.len() {
                a[i] as u64
            } else {
                0
            };
            let bi: u64 = if i < b.len() {
                b[i] as u64
            } else {
                0
            };
            let t = ai + bi + carry;
            let d = (t % 4294967296) as u32;
            let ghost old_limbs = limbs@;
            limbs.push(d);
            proof {
                lemma_low_value_ext(limbs@, old_limbs, i as nat);
                assert(low_value(limbs@, i as nat + 1) == low_value(old_limbs, i as nat) + d
                    * pow_base(i as nat));
                assert(t == d + (t / 4294967296) * 4294967296);
                let p = pow_base(i as nat);
                assert(pow_base(i as nat + 1) == 4294967296 * p);
                assert(d * p + (t / 4294967296) * (4294967296 * p) == t * p) by (nonlinear_arith)
                    requires t == d + (t / 4294967296) * 4294967296;
                assert(digit(a@, i as int) == ai);
                assert(digit(b@, i as int) == bi);
                assert(t * p == ai * p + bi * p + carry * p) by (nonlinear_arith)
                    requires t == ai + bi + carry;
            }
            carry = t / 4294967296;
            i = i + 1;
        }
        if carry > 0 {
            let ghost old_limbs = limbs@;
            limbs.push(carry as u32);
            proof {
                lemma_push_low_value(old_limbs, carry as u32);
            }
        }
        proof {
            lemma_low_value_past_end(a@, n as nat);
            lemma_low_value_past_end(b@, n as nat);
        }
        BigNat { limbs }
    }

    /// `self * other`.
    pub fn mul(&self, other: &BigNat) -> (r: BigNat)
        ensures
            r@ == self@ * other@,
    {
        let a = &self.limbs;
        let b = &other.limbs;
        let ghost vb = limbs_value(b@);
        let mut r: Vec<u32> = Vec::new();
        let mut k: usize = 0;
        while k < a.len()
            invariant
                k <= a.len(),
                r.len() == k,
                forall|x: int| 0 <= x < r.len() ==> r@[x] == 0,
            decreases a.len() - k,
        {
            r.push(0);
            k = k + 1;
        }
        k = 0;
        while k < b.len()
            invariant
                k <= b.len(),
                r.len() == a.len() + k,
                forall|x: int| 0 <= x < r.len() ==> r@[x] == 0,
            decreases b.len() - k,
        {
            r.push(0);
            k = k + 1;
        }
        let ghost total: nat = r.len() as nat;
        proof {
            assert forall|x: int| 0 <= x < total implies digit(r@, x) == digit(
                Seq::<u32>::empty(),
                x,
            ) by {
                assert(r@[x] == 0);
            }
            lemma_low_value_ext(r@, Seq::<u32>::empty(), total);
            lemma_zero_low_value(total);
            assert(low_value(a@, 0) == 0);
            assert(0 * vb == 0) by (nonlinear_arith);
        }
        let mut i: usize = 0;
        while i < a.len()
            invariant
                r.len() == total,
                total == a.len() + b.len(),
                vb == limbs_value(b@),
                i <= a.len(),
                low_value(r@, total) == low_value(a@, i as nat) * vb,
                forall|x: int| i + b.len() <= x < total ==> r@[x] == 0,
            decreases a.len() - i,
        {
            let ai: u64 = a[i] as u64;
            let mut carry: u64 = 0;
            let mut j: usize = 0;
            let ghost x0 = low_value(a@, i as nat) * vb;
            proof {
                assert(low_value(b@, 0) == 0);
                assert(ai * 0 * pow_base(i as nat) == 0) by (nonlinear_arith);
                assert(pow_base(i as nat + 0) == pow_base(i as nat));
            }
            while j < b.len()
                invariant
                    r.len() == total,
                    total == a.len() + b.len(),
                    i < a.len(),
                    ai == a@[i as int],
                    j <= b.len(),
                    carry < 4294967296,
                    low_value(r@, total) + carry * pow_base((i + j) as nat) == x0 + ai * low_value(
                        b@,
                        j as nat,
                    ) * pow_base(i as nat),
                    forall|x: int| i + b.len() <= x < total ==> r@[x] == 0,
                decreases b.len() - j,
            {
                let ij = i + j;
                let old = r[ij] as u64;
                let bj = b[j] as u64;
                assert(ai * bj <= 4294967295 * 4294967295) by (nonlinear_arith)
                    requires ai < 4294967296, bj < 4294967296;
                let t = old + ai * bj + carry;
                let d = (t % 4294967296) as u32;
                let ghost before = r@;
                r.set(ij, d);
                proof {
                    lemma_low_value_update(before, ij as int, d, total);
                    let p = pow_base(ij as nat);
                    let pi = pow_base(i as nat);
                    let pj = pow_base(j as nat);
                    lemma_pow_base_add(i as nat, j as nat);
                    assert(pow_base(ij as nat + 1) == 4294967296 * p);
                    assert(digit(b@, j as int) == bj);
                    assert(low_value(b@, j as nat + 1) == low_value(b@, j as nat) + bj * pj);
                    let lbj = low_value(b@, j as nat);
                    let c2 = t / 4294967296;
                    assert(t == d + c2 * 4294967296);
                    let ab = ai * bj;
                    assert(t * p == old * p + ab * p + carry * p) by (nonlinear_arith)
                        requires t == old + ab + carry;
                    assert(t * p == d * p + c2 * (4294967296 * p)) by (nonlinear_arith)
                        requires t == d + c2 * 4294967296;
                    assert(ai * (lbj + bj * pj) * pi == ai * lbj * pi + ab * (pi * pj)) by (
                    nonlinear_arith)
                        requires ab == ai * bj;
                    assert(ab * p == ab * (pi * pj));
                    assert(low_value(r@, total) + c2 * pow_base(ij as nat + 1) == x0 + ai * (lbj + bj
                        * pj) * pi);
                    assert(c2 < 4294967296) by (nonlinear_arith)
                        requires
                            t == old + ai * bj + carry,
                            old < 4294967296,
                            ai * bj <= 4294967295 * 4294967295,
                            carry < 4294967296,
                            t == d + c2 * 4294967296,
                            d >= 0,
                    ;
                }
                carry = t / 4294967296;
                j = j + 1;
            }
            let top = i + b.len();
            let ghost before = r@;
            assert(r@[top as int] == 0);
            r.set(top, carry as u32);
            proof {
                lemma_low_value_update(before, top as int, carry as u32, total);
                assert(low_value(b@, b.len() as nat) == vb);
                assert(digit(a@, i as int) == ai);
                assert(low_value(a@, i as nat + 1) == low_value(a@, i as nat) + ai * pow_base(
                    i as nat,
                ));
                assert(low_value(r@, total) == low_value(a@, i as nat + 1) * vb) by (
                nonlinear_arith)
                    requires
                        low_value(r@, total) + 0 * pow_base(top as nat) == low_value(before, total)
                            + carry * pow_base(top as nat),
                        low_value(before, total) + carry * pow_base(top as nat) == x0 + ai * vb
                            * pow_base(i as nat),
                        x0 == low_value(a@, i as nat) * vb,
                        low_value(a@, i as nat + 1) == low_value(a@, i as nat) + ai * pow_base(
                            i as nat,
                        ),
                ;
            }
            i = i + 1;
        }
        proof {
            lemma_low_value_past_end(r@, total);
        }
        trim(&mut r);
        BigNat { limbs: r }
    }

    /// `self < other`.
    pub fn lt(&self, other: &BigNat) -> (r: bool)
        ensures
            r == (self@ < other@),
    {
        let a = &self.limbs;
        let b = &other.limbs;
        let n = if a.len() >= b.len() {
            a.len()
        } else {
            b.len()
        };
        let mut i: usize = n;
        while i > 0
            invariant
                self@ == limbs_value(a@),
                other@ == limbs_value(b@),
                a.len() <= n,
                b.len() <= n,
                i <= n,
                forall|k: int| i <= k < n ==> digit(a@, k) == digit(b@, k),
            decreases i,
        {
            i = i - 1;
            let ai: u32 = if i < a.len() {
                a[i]
            } else {
                0
            };
            let bi: u32 = if i < b.len() {
                b[i]
            } else {
                0
            };
            if ai != bi {
                proof {
                    assert(digit(a@, i as int) == ai);
                    assert(digit(b@, i as int) == bi);
                    if ai < bi {
                        lemma_compare_at(a@, b@, i as nat, n as nat);
                        assert(limbs_value(a@) < limbs_value(b@));
                    } else {
                        assert forall|j: int| i < j < n implies digit(b@, j) == digit(a@, j) by {
                            assert(digit(a@, j) == digit(b@, j));
                        }
                        lemma_compare_at(b@, a@, i as nat, n as nat);
                        assert(limbs_value(b@) < limbs_value(a@));
                    }
                    assert(self@ == limbs_value(a@));
                    assert(other@ == limbs_value(b@));
                }
                return ai < bi;
            }
        }
        proof {
            lemma_low_value_ext(a@, b@, n as nat);
            lemma_low_value_past_end(a@, n as nat);
            lemma_low_value_past_end(b@, n as nat);
        }
        false
    }

    /// `self - other`, for `other <= self`.
    pub fn sub(&self, other: &BigNat) -> (r: BigNat)
        requires
            other@ <= self@,
        ensures
            r@ == self@ - other@,
    {
        let a = &self.limbs;
        let b = &other.limbs;
        let n = if a.len() >= b.len() {
            a.len()
        } else {
            b.len()
        };
        let mut limbs: Vec<u32> = Vec::new();
        let mut borrow: u64 = 0;
        let mut i: usize = 0;
        while i < n
            invariant
                a.len() <= n,
                b.len() <= n,
                i <= n,
                limbs.len() == i,
                borrow <= 1,
                low_value(limbs@, i as nat) + low_value(b@, i as nat) == low_value(a@, i as nat)
                    + borrow * pow_base(i as nat),
            decreases n - i,
        {
            let ai: u64 = if i < a.len() {
                a[i] as u64
            } else {
                0
            };
            let bi: u64 = if i < b.len() {
                b[i] as u64
            } else {
                0
            };
            let d: u64;
            let nb: u64;
            if ai >= bi + borrow {
                d = ai - bi - borrow;
                nb = 0;
            } else {
                d = ai + 4294967296 - bi - borrow;
                nb = 1;
            }
            let ghost old_limbs = limbs@;
            limbs.push(d as u32);
            proof {
                lemma_low_value_ext(limbs@, old_limbs, i as nat);
                let p = pow_base(i as nat);
                assert(pow_base(i as nat + 1) == 4294967296 * p);
                assert(digit(a@, i as int) == ai);
                assert(digit(b@, i as int) == bi);
                assert(d + bi + borrow == ai + nb * 4294967296);
                assert(d * p + bi * p + borrow * p == ai * p + nb * (4294967296 * p)) by (
                nonlinear_arith)
                    requires d + bi + borrow == ai + nb * 4294967296;
            }
            borrow = nb;
            i = i + 1;
        }
        proof {
            lemma_low_value_past_end(a@, n as nat);
            lemma_low_value_past_end(b@, n as nat);
            lemma_low_value_bound(limbs@, n as nat);
            if borrow == 1 {
                assert(low_value(limbs@, n as nat) >= pow_base(n as nat));
            }
            assert(borrow == 0);
            assert(0 * pow_base(n as nat) == 0) by (nonlinear_arith);
            assert(limbs_value(limbs@) == low_value(limbs@, n as nat));
        }
        trim(&mut limbs);
        BigNat { limbs }
    }

    /// Quotient and remainder of the division by a nonzero `d`.
    pub fn divmod_small(&self, d: u32) -> (r: (BigNat, u32))
        requires
            d > 0,
        ensures
            r.0@ * d + r.1 == self@,
            r.1 < d,
    {
        let a = &self.limbs;
        let n = a.len();
        let mut q: Vec<u32> = Vec::new();
        let mut k: usize = 0;
        while k < n
            invariant
                k <= n,
                q.len() == k,
            decreases n - k,
        {
            q.push(0);
            k = k + 1;
        }
        let mut rem: u64 = 0;
        let mut i: usize = n;
        let dd = d as u64;
        proof {
            assert(high_value(a@, n as nat, n as nat) == 0);
            assert(high_value(q@, n as nat, n as nat) == 0);
            assert(dd * 0 == 0) by (nonlinear_arith);
        }
        while i > 0
            invariant
                n == a.len(),
                q.len() == n,
                i <= n,
                dd == d,
                d > 0,
                rem < d,
                high_value(a@, i as nat, n as nat) == dd * high_value(q@, i as nat, n as nat)
                    + rem,
            decreases i,
        {
            i = i - 1;
            let ai = a[i] as u64;
            assert(rem * 4294967296 + ai < dd * 4294967296) by (nonlinear_arith)
                requires rem < dd, ai < 4294967296;
            assert(dd * 4294967296 <= 4294967295 * 4294967296) by (nonlinear_arith)
                requires dd <= 4294967295;
            let cur = rem * 4294967296 + ai;
            let qd = cur / dd;
            assert(qd < 4294967296) by (nonlinear_arith)
                requires cur < dd * 4294967296, qd == cur / dd, dd > 0;
            let ghost before = q@;
            q.set(i, qd as u32);
            proof {
                lemma_high_value_ext(q@, before, i as nat + 1, n as nat);
                assert(digit(q@, i as int) == qd);
                assert(digit(a@, i as int) == ai);
                let hq = high_value(before, i as nat + 1, n as nat);
                let r2 = cur % dd;
                assert(cur == dd * qd + r2) by {
                    lemma_fundamental_div_mod(cur as int, dd as int);
                }
                assert(ai + 4294967296 * (dd * hq + rem) == dd * (qd + 4294967296 * hq) + r2) by (
                nonlinear_arith)
                    requires cur == rem * 4294967296 + ai, cur == dd * qd + r2;
            }
            rem = cur % dd;
        }
        proof {
            lemma_low_value_split(a@, 0, n as nat);
            lemma_low_value_split(q@, 0, n as nat);
            assert(low_value(a@, 0) == 0);
            assert(low_value(q@, 0) == 0);
            assert(pow_base(0) == 1);
            let ha = high_value(a@, 0, n as nat);
            let hq = high_value(q@, 0, n as nat);
            assert(low_value(a@, n as nat) == ha) by (nonlinear_arith)
                requires low_value(a@, n as nat) == 0 + 1 * ha;
            assert(low_value(q@, n as nat) == hq) by (nonlinear_arith)
                requires low_value(q@, n as nat) == 0 + 1 * hq;
            assert(limbs_value(q@) == hq);
            assert(hq * dd == dd * hq) by (nonlinear_arith);
        }
        trim(&mut q);
        (BigNat { limbs: q }, rem as u32)
    }

    /// The value, when it is below 2^64.
    pub fn to_u64(&self) -> (r: u64)
        requires
            self@ <= u64::MAX,
        ensures
            r == self@,
    {
        let a = &self.limbs;
        let lo: u64 = if a.len() > 0 {
            a[0] as u64
        } else {
            0
        };
        let hi: u64 = if a.len() > 1 {
            a[1] as u64
        } else {
            0
        };
        proof {
            let n = if a.len() >= 2 {
                a.len() as nat
            } else {
                2
            };
            lemma_low_value_past_end(a@, n);
            lemma_low_value_split(a@, 2, n);
            assert(pow_base(0) == 1);
            assert(pow_base(1) == base());
            assert(pow_base(2) == base() * base());
            assert(digit(a@, 0) == lo);
            assert(digit(a@, 1) == hi);
            assert(low_value(a@, 0) == 0);
            assert(digit(a@, 0) * pow_base(0) == lo) by (nonlinear_arith)
                requires
                    digit(a@, 0) == lo,
                    pow_base(0) == 1,
            ;
            assert(low_value(a@, 1) == low_value(a@, 0) + digit(a@, 0) * pow_base(0));
            assert(low_value(a@, 1) == lo);
            assert(low_value(a@, 2) == low_value(a@, 1) + digit(a@, 1) * pow_base(1));
            assert(low_value(a@, 2) == lo + hi * base());
            lemma_pow_base_pos(2);
            let h = high_value(a@, 2, n);
            if h > 0 {
                assert(pow_base(2) * h >= pow_base(2)) by (nonlinear_arith)
                    requires h >= 1;
            }
            assert(h == 0);
            assert(pow_base(2) * 0 == 0);
        }
        assert(lo + hi * 4294967296 <= u64::MAX);
        lo + hi * 4294967296
    }

    /// A copy of this number.
    pub fn copy(&self) -> (r: BigNat)
        ensures
            r@ == self@,
    {
        let mut limbs: Vec<u32> = Vec::new();
        let mut i: usize = 0;
        while i < self.limbs.len()
            invariant
                i <= self.limbs.len(),
                limbs@ == self.limbs@.subrange(0, i as int),
            decreases self.limbs.len() - i,
        {
            limbs.push(self.limbs[i]);
            i = i + 1;
            assert(limbs@ =~= self.limbs@.subrange(0, i as int));
        }
        assert(limbs@ =~= self.limbs@);
        BigNat { limbs }
    }

    /// The decimal representation of this number.
    pub fn to_decimal(&self) -> (s: String)
        ensures
            s@ == decimal(self@),
    {
        let ten9 = BigNat::from_u64(1000000000);
        let mut x = self.copy();
        let mut chunks: Vec<u32> = Vec::new();
        proof {
            assert(decimal(self@) =~= decimal(x@) + chunk_digits(chunks@));
        }
        while !x.lt(&ten9)
            invariant
                ten9@ == 1000000000,
                decimal(self@) == decimal(x@) + chunk_digits(chunks@),
            decreases x@,
        {
            let (q, r) = x.divmod_small(1000000000);
            proof {
                assert(q@ >= 1) by (nonlinear_arith)
                    requires q@ * 1000000000 + r == x@, r < 1000000000, x@ >= 1000000000;
                reveal_with_fuel(pow10, 10);
                assert(pow10(9) == 1000000000);
                assert(q@ * pow10(9) + r == x@);
                digits::lemma_decimal_split(q@, r as nat, 9);
                assert(chunk_digits(chunks@.push(r)) == padded_digits(r as nat, 9) + chunk_digits(
                    chunks@,
                )) by {
                    assert(chunks@.push(r).drop_last() =~= chunks@);
                }
                assert(decimal(self@) =~= decimal(q@) + chunk_digits(chunks@.push(r)));
                assert(q@ < x@) by (nonlinear_arith)
                    requires q@ * 1000000000 + r == x@, q@ >= 1;
            }
            chunks.push(r);
            x = q;
        }
        let top = x.to_u64();
        let mut s = String::new();
        digits::push_decimal(&mut s, top);
        let mut j: usize = chunks.len();
        proof {
            assert(chunks@.take(j as int) =~= chunks@);
            assert(s@ =~= decimal(x@));
        }
        while j > 0
            invariant
                j <= chunks.len(),
                s@ + chunk_digits(chunks@.take(j as int)) == decimal(self@),
            decreases j,
        {
            j = j - 1;
            let ghost before = s@;
            digits::push_padded(&mut s, chunks[j] as u64, 9);
            proof {
                assert(chunks@.take(j + 1).drop_last() =~= chunks@.take(j as int));
                assert(chunks@.take(j + 1).last() == chunks@[j as int]);
                assert(s@ + chunk_digits(chunks@.take(j as int)) =~= before + chunk_digits(
                    chunks@.take(j + 1),
                ));
            }
        }
        proof {
            assert(chunks@.take(0) =~= Seq::<u32>::empty());
            assert(s@ + chunk_digits(Seq::<u32>::empty()) =~= s@);
        }
        s
    }

    /// Quotient and remainder of the division by a nonzero `m`.
    pub fn divmod(&self, m: &BigNat) -> (r: (BigNat, BigNat))
        requires
            m@ > 0,
        ensures
            r.0@ * m@ + r.1@ == self@,
            r.1@ < m@,
    {
        let mut mults: Vec<BigNat> = Vec::new();
        let mut pows: Vec<BigNat> = Vec::new();
        mults.push(m.copy());
        pows.push(BigNat::from_u64(1));
        proof {
            assert(m@ * two_pow(0) == m@);
        }
        while !self.lt(&mults[mults.len() - 1])
            invariant
                m@ > 0,
                mults@.len() == pows@.len(),
                mults@.len() >= 1,
                forall|k: int|
                    0 <= k < mults@.len() ==> #[trigger] mults@[k]@ == m@ * two_pow(k as nat)
                        && pows@[k]@ == two_pow(k as nat),
            decreases 2 * self@ + 2 - mults@[mults@.len() - 1]@,
        {
            let k = mults.len() - 1;
            let nm = mults[k].add(&mults[k]);
            let np = pows[k].add(&pows[k]);
            proof {
                assert(two_pow(k as nat + 1) == 2 * two_pow(k as nat));
                assert(nm@ == m@ * two_pow(k as nat + 1)) by (nonlinear_arith)
                    requires
                        nm@ == mults@[k as int]@ + mults@[k as int]@,
                        mults@[k as int]@ == m@ * two_pow(k as nat),
                        two_pow(k as nat + 1) == 2 * two_pow(k as nat),
                ;
                lemma_two_pow_pos(k as nat);
                assert(mults@[k as int]@ >= 1) by (nonlinear_arith)
                    requires mults@[k as int]@ == m@ * two_pow(k as nat), m@ >= 1, two_pow(
                        k as nat,
                    ) >= 1;
            }
            mults.push(nm);
            pows.push(np);
        }
        let mut k: usize = mults.len() - 1;
        let mut r = self.copy();
        let mut q = BigNat::zero();
        proof {
            assert(0 * m@ == 0) by (nonlinear_arith);
        }
        while k > 0
            invariant
                m@ > 0,
                mults@.len() == pows@.len(),
                k < mults@.len(),
                forall|j: int|
                    0 <= j < mults@.len() ==> #[trigger] mults@[j]@ == m@ * two_pow(j as nat)
                        && pows@[j]@ == two_pow(j as nat),
                q@ * m@ + r@ == self@,
                r@ < mults@[k as int]@,
            decreases k,
        {
            k = k - 1;
            if !r.lt(&mults[k]) {
                let nr = r.sub(&mults[k]);
                let nq = q.add(&pows[k]);
                proof {
                    assert(two_pow(k as nat + 1) == 2 * two_pow(k as nat));
                    assert(nq@ * m@ + nr@ == self@) by (nonlinear_arith)
                        requires
                            nq@ == q@ + two_pow(k as nat),
                            nr@ == r@ - m@ * two_pow(k as nat),
                            q@ * m@ + r@ == self@,
                    ;
                    assert(nr@ < mults@[k as int]@) by (nonlinear_arith)
                        requires
                            nr@ == r@ - m@ * two_pow(k as nat),
                            r@ < m@ * two_pow(k as nat + 1),
                            two_pow(k as nat + 1) == 2 * two_pow(k as nat),
                            mults@[k as int]@ == m@ * two_pow(k as nat),
                    ;
                }
                r = nr;
                q = nq;
            }
        }
        proof {
            assert(mults@[0]@ == m@ * two_pow(0));
            assert(m@ * 1 == m@);
        }
        (q, r)
    }

    /// `2^k`.
    pub fn pow2(k: u64) -> (r: BigNat)
        ensures
            r@ == two_pow(k as nat),
    {
        let mut r = BigNat::from_u64(1);
        let mut i: u64 = 0;
        while i < k
            invariant
                i <= k,
                r@ == two_pow(i as nat),
            decreases k - i,
        {
            r = r.add(&r);
            i = i + 1;
        }
        r
    }

    /// `base()^h`: `h` zero limbs and a one.
    fn base_pow(h: usize) -> (r: BigNat)
        ensures
            r@ == pow_base(h as nat),
    {
        let mut limbs: Vec<u32> = Vec::new();
        let mut i: usize = 0;
        while i < h
            invariant
                i <= h,
                limbs@.len() == i,
                forall|k: int| 0 <= k < i ==> #[trigger] limbs@[k] == 0,
                low_value(limbs@, i as nat) == 0,
            decreases h - i,
        {
            let ghost before = limbs@;
            limbs.push(0);
            proof {
                lemma_low_value_ext(limbs@, before, i as nat);
                assert(digit(limbs@, i as int) == 0);
                assert(0 * pow_base(i as nat) == 0);
            }
            i = i + 1;
        }
        let ghost before = limbs@;
        limbs.push(1);
        proof {
            lemma_low_value_ext(limbs@, before, h as nat);
            assert(digit(limbs@, h as int) == 1);
            assert(low_value(limbs@, h as nat + 1) == 0 + 1 * pow_base(h as nat));
            assert(1 * pow_base(h as nat) == pow_base(h as nat));
        }
        BigNat { limbs }
    }

    /// The integer square root: the largest `r` with `r * r <= self`, by
    /// Newton's iteration from a power of the base above the root.
    pub fn isqrt(&self) -> (r: BigNat)
        ensures
            r@ * r@ <= self@ < (r@ + 1) * (r@ + 1),
    {
        let zero = BigNat::zero();
        if !zero.lt(self) {
            proof {
                assert(self@ == 0);
                assert(zero@ * zero@ == 0) by (nonlinear_arith)
                    requires
                        zero@ == 0,
                ;
                assert((zero@ + 1) * (zero@ + 1) == 1) by (nonlinear_arith)
                    requires
                        zero@ == 0,
                ;
            }
            return zero;
        }
        let len = self.limbs.len();
        let h = len / 2 + 1;
        let mut x = BigNat::base_pow(h);
        proof {
            lemma_low_value_bound(self.limbs@, len as nat);
            lemma_pow_base_add(h as nat, h as nat);
            lemma_pow_base_pos(h as nat);
            lemma_pow_base_monotone(len as nat, (h + h) as nat);
            assert(x@ * x@ > self@);
            assert((x@ + 1) * (x@ + 1) > self@) by (nonlinear_arith)
                requires
                    x@ * x@ > self@,
                    x@ > 0,
            ;
        }
        let mut done = false;
        while !done
            invariant
                self@ > 0,
                x@ > 0,
                (x@ + 1) * (x@ + 1) > self@,
                done ==> x@ * x@ <= self@,
            decreases x@, if done { 0int } else { 1int },
        {
            let (q, _rem) = self.divmod(&x);
            let (y, _bit) = x.add(&q).divmod_small(2);
            proof {
                assert(q@ * x@ <= self@);
                assert(self@ < (q@ + 1) * x@) by (nonlinear_arith)
                    requires
                        q@ * x@ + _rem@ == self@,
                        _rem@ < x@,
                ;
                assert(y@ == (x@ + q@) / 2) by {
                    vstd::arithmetic::div_mod::lemma_fundamental_div_mod_converse_div(
                        (x@ + q@) as int,
                        2,
                        y@ as int,
                        _bit as int,
                    );
                }
                lemma_newton_stays_above(self@, x@, q@, y@);
            }
            if y.lt(&x) {
                proof {
                    assert(y@ > 0) by {
                        if y@ == 0 {
                            assert(x@ + q@ <= 1);
                            assert(x@ == 1 && q@ == 0);
                            assert(self@ < 1) by (nonlinear_arith)
                                requires
                                    self@ < (q@ + 1) * x@,
                                    x@ == 1,
                                    q@ == 0,
                            ;
                        }
                    }
                }
                x = y;
            } else {
                proof {
                    if x@ * x@ > self@ {
                        lemma_newton_descends(self@, x@, q@, y@);
                    }
                }
                done = true;
            }
        }
        x
    }

    /// `self / den` written in decimal with exactly `digits` places after
    /// the point, cut (not rounded) after the last one.
    pub fn to_fixed_point(&self, den: &BigNat, digits: u32) -> (s: String)
        requires
            den@ > 0,
        ensures
            s@ == fixed_point_text(self@, den@, digits as nat),
    {
        let scale = BigNat::pow(10, digits as u64);
        proof {
            lemma_nat_pow_ten(digits as nat);
            digits::lemma_pow10_pos(digits as nat);
        }
        let (v, vr) = self.mul(&scale).divmod(den);
        proof {
            vstd::arithmetic::div_mod::lemma_fundamental_div_mod_converse_div(
                (self@ * pow10(digits as nat)) as int,
                den@ as int,
                v@ as int,
                vr@ as int,
            );
        }
        let (y, r) = v.divmod(&scale);
        proof {
            vstd::arithmetic::div_mod::lemma_fundamental_div_mod_converse_div(
                v@ as int,
                pow10(digits as nat) as int,
                y@ as int,
                r@ as int,
            );
            vstd::arithmetic::div_mod::lemma_fundamental_div_mod_converse_mod(
                v@ as int,
                pow10(digits as nat) as int,
                y@ as int,
                r@ as int,
            );
        }
        let mut out = y.to_decimal();
        digits::push_char(&mut out, '.');
        let lead = scale.add(&r);
        let frac = lead.to_decimal();
        proof {
            digits::lemma_decimal_split(1, r@, digits as nat);
            assert(1 * pow10(digits as nat) + r@ == lead@);
            assert(decimal(1) =~= seq!['1']);
            assert(frac@ =~= seq!['1'] + padded_digits(r@, digits as nat));
        }
        let n = frac.unicode_len();
        let tail = frac.as_str().substring_char(1, n);
        out.append(tail);
        proof {
            assert(tail@ =~= padded_digits(r@, digits as nat));
        }
        out
    }

    /// `base^e`, by repeated multiplication.
    pub fn pow(base: u64, e: u64) -> (r: BigNat)
        ensures
            r@ == nat_pow(base as nat, e as nat),
    {
        let b = BigNat::from_u64(base);
        let mut r = BigNat::from_u64(1);
        let mut i: u64 = 0;
        while i < e
            invariant
                i <= e,
                b@ == base,
                r@ == nat_pow(base as nat, i as nat),
            decreases e - i,
        {
            let ghost before = r@;
            r = r.mul(&b);
            i = i + 1;
            proof {
                assert(before * base == base * before) by (nonlinear_arith);
            }
        }
        r
    }

    /// `self == other`.
    pub fn equals(&self, other: &BigNat) -> (r: bool)
        ensures
            r == (self@ == other@),
    {
        !self.lt(other) && !other.lt(self)
    }

    /// The number of bits of this number: the least `b` with `self < 2^b`.
    pub fn bit_length(&self) -> (b: u64)
        requires
            self@ < two_pow(u64::MAX as nat),
        ensures
            self@ < two_pow(b as nat),
            b == 0 || two_pow((b - 1) as nat) <= self@,
            b == bits_of(self@),
    {
        let mut b: u64 = 0;
        let mut pw = BigNat::from_u64(1);
        while !self.lt(&pw)
            invariant
                self@ < two_pow(u64::MAX as nat),
                pw@ == two_pow(b as nat),
                b == 0 || two_pow((b - 1) as nat) <= self@,
            decreases 2 * self@ + 2 - pw@,
        {
            proof {
                if b == u64::MAX {
                    assert(false);
                }
                lemma_two_pow_pos(b as nat);
                assert(two_pow(b as nat + 1) == 2 * two_pow(b as nat));
            }
            pw = pw.add(&pw);
            b = b + 1;
        }
        proof {
            lemma_bits_unique(self@, b as nat);
        }
        b
    }
}

/// An integer of any size: a sign and a magnitude.
pub struct BigInt {
    negative: bool,
    mag: BigNat,
}

impl View for BigInt {
    type V = int;

    closed spec fn view(&self) -> int {
        if self.negative {
            -(self.mag@ as int)
        } else {
            self.mag@ as int
        }
    }
}

impl BigInt {
    /// The nonnegative integer `n`.
    pub fn from_nat(n: BigNat) -> (r: BigInt)
        ensures
            r@ == n@,
    {
        BigInt { negative: false, mag: n }
    }

    /// `-self`.
    pub fn neg(self) -> (r: BigInt)
        ensures
            r@ == -self@,
    {
        BigInt { negative: !self.negative, mag: self.mag }
    }

    /// `self * n` for a natural `n`.
    pub fn mul_nat(&self, n: &BigNat) -> (r: BigInt)
        ensures
            r@ == self@ * n@,
    {
        let mag = self.mag.mul(n);
        proof {
            if self.negative {
                assert(-(self.mag@ as int) * n@ == -((self.mag@ * n@) as int)) by (nonlinear_arith);
            }
        }
        BigInt { negative: self.negative, mag }
    }

    /// `self + other`.
    pub fn add(&self, other: &BigInt) -> (r: BigInt)
        ensures
            r@ == self@ + other@,
    {
        if self.negative == other.negative {
            BigInt { negative: self.negative, mag: self.mag.add(&other.mag) }
        } else if self.mag.lt(&other.mag) {
            BigInt { negative: other.negative, mag: other.mag.sub(&self.mag) }
        } else {
            BigInt { negative: self.negative, mag: self.mag.sub(&other.mag) }
        }
    }

    /// The magnitude `|self|`.
    pub fn magnitude(&self) -> (r: BigNat)
        ensures
            r@ == if self@ < 0 {
                -self@
            } else {
                self@
            },
    {
        self.mag.copy()
    }

    /// `self < 0`.
    pub fn is_negative(&self) -> (r: bool)
        ensures
            r == (self@ < 0),
    {
        let zero = BigNat::zero();
        self.negative && zero.lt(&self.mag)
    }
}

} // verus!
