//! Fibonacci numbers below a power of ten.
use crate::bignum::BigNat;
use crate::digits::{self, pow10};
use vstd::prelude::*;

verus! {

/// The Fibonacci numbers: 0, 1, 1, 2, 3, 5, ...
pub open spec fn fib(n: nat) -> nat
    decreases n,
{
    if n == 0 {
        0
    } else if n == 1 {
        1
    } else {
        fib((n - 2) as nat) + fib((n - 1) as nat)
    }
}

pub proof fn lemma_fib_grows(n: nat)
    ensures
        fib(n) + 1 >= n,
        n >= 1 ==> fib(n) >= 1,
        n >= 2 ==> fib(n + 1) > fib(n),
    decreases n,
{
    if n >= 2 {
        lemma_fib_grows((n - 1) as nat);
        lemma_fib_grows((n - 2) as nat);
    }
}

/// `10^d`.
pub fn big_pow10(d: u32) -> (r: BigNat)
    ensures
        r@ == pow10(d as nat),
{
    let ten = BigNat::from_u64(10);
    let mut r = BigNat::from_u64(1);
    let mut i: u32 = 0;
    while i < d
        invariant
            ten@ == 10,
            i <= d,
            r@ == pow10(i as nat),
        decreases d - i,
    {
        r = r.mul(&ten);
        i = i + 1;
        assert(pow10(i as nat) == 10 * pow10((i - 1) as nat));
    }
    r
}

/// The Fibonacci numbers `F(1), F(2), ...` below a limit, one at a time.
pub struct FibonacciBelow {
    a: BigNat,
    b: BigNat,
    limit: BigNat,
    k: Ghost<nat>,
}

impl FibonacciBelow {
    /// The index of the next term.
    pub closed spec fn index(&self) -> nat {
        self.k@
    }

    /// The bound the terms stay below.
    pub closed spec fn bound(&self) -> nat {
        self.limit@
    }

    pub closed spec fn wf(&self) -> bool {
        &&& self.k@ >= 1
        &&& self.a@ == fib((self.k@ - 1) as nat)
        &&& self.b@ == fib(self.k@)
    }

    /// The terms below `10^max_digits`, starting at `F(1)`.
    pub fn new(max_digits: u32) -> (r: FibonacciBelow)
        ensures
            r.wf(),
            r.index() == 1,
            r.bound() == pow10(max_digits as nat),
    {
        FibonacciBelow {
            a: BigNat::from_u64(0),
            b: BigNat::from_u64(1),
            limit: big_pow10(max_digits),
            k: Ghost(1),
        }
    }

    /// The next term `F(k)` if it is below the bound, and then advance to
    /// `F(k + 1)`; `None` (and no change) once the terms reach the bound.
    pub fn next_term(&mut self) -> (r: Option<BigNat>)
        requires
            old(self).wf(),
        ensures
            final(self).wf(),
            final(self).bound() == old(self).bound(),
            match r {
                Some(t) => t@ == fib(old(self).index()) && fib(old(self).index()) < old(
                    self,
                ).bound() && final(self).index() == old(self).index() + 1,
                None => fib(old(self).index()) >= old(self).bound() && final(self).index() == old(
                    self,
                ).index(),
            },
    {
        if self.b.lt(&self.limit) {
            let term = self.b.copy();
            let next = self.a.add(&self.b);
            self.a = self.b.copy();
            self.b = next;
            self.k = Ghost(self.k@ + 1);
            Some(term)
        } else {
            None
        }
    }
}

/// All Fibonacci numbers with at most `max_digits` decimal digits (those
/// below `10^max_digits`), `F(1), F(2), ...` in order.
pub fn generate_fibonacci(max_digits: usize) -> (terms: Vec<BigNat>)
    requires
        max_digits <= u32::MAX,
    ensures
        forall|i: int| 0 <= i < terms@.len() ==> #[trigger] terms@[i]@ == fib((i + 1) as nat),
        forall|i: int| 0 <= i < terms@.len() ==> #[trigger] fib((i + 1) as nat) < pow10(
            max_digits as nat,
        ),
        fib(terms@.len() + 1) >= pow10(max_digits as nat),
{
    let mut seq = FibonacciBelow::new(max_digits as u32);
    let mut terms: Vec<BigNat> = Vec::new();
    let mut done = false;
    while !done
        invariant
            seq.wf(),
            seq.bound() == pow10(max_digits as nat),
            seq.index() == terms@.len() + 1,
            seq.index() <= seq.bound() + 1,
            forall|i: int| 0 <= i < terms@.len() ==> #[trigger] terms@[i]@ == fib((i + 1) as nat),
            forall|i: int|
                0 <= i < terms@.len() ==> #[trigger] fib((i + 1) as nat) < pow10(
                    max_digits as nat,
                ),
            done ==> fib(terms@.len() + 1) >= pow10(max_digits as nat),
        decreases seq.bound() + 2 - seq.index() + (if done {
            0int
        } else {
            1int
        }),
    {
        proof {
            lemma_fib_grows(seq.index());
        }
        match seq.next_term() {
            Some(t) => {
                terms.push(t);
            },
            None => {
                done = true;
            },
        }
    }
    terms
}

/// Format an integer with thousands separators (e.g. 1_000_000 -> "1,000,000").
pub fn fmt_int(n: u64) -> (s: String)
    ensures
        s@ == digits::with_commas(n as nat),
{
    digits::fmt_int(n)
}

} // verus!
