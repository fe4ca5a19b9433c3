//! All primes up to a limit: a simple sieve up to the square root, then a
//! segmented sieve of the rest, block by block, the segments of a block
//! sieved in parallel.
use crate::arith::{self, is_prime, nats_of, primes_below, primes_in};
use crate::digits;
use crate::twin_primes::{self, segment_count, segment_end, segment_survivors};
use rayon::iter::IntoParallelRefIterator;
use rayon::iter::ParallelIterator;
use vstd::prelude::*;

verus! {

/// Number range covered by one sieve segment: 2^19 numbers.
pub const SEG_SIZE: u64 = 524288;

/// Numbers processed per block of segments sieved in parallel.
pub const BLOCK_SIZE: u64 = 100000000;

/// Sieve `[2, limit]` and return all primes up to `limit`, in increasing order.
pub fn small_sieve(limit: u64) -> (primes: Vec<u64>)
    requires
        limit < isize::MAX,
    ensures
        nats_of(primes@) == primes_below(limit as nat + 1),
{
    twin_primes::small_sieve(limit)
}

/// Sieve the odd numbers in `[lo, lo + SEG_SIZE) ∩ [lo, limit]` with
/// `small_primes`: the result holds, in increasing order, those that no
/// element of `small_primes` divides. `lo` must be odd.
pub fn sieve_segment(lo: u64, limit: u64, small_primes: &[u64]) -> (survivors: Vec<u64>)
    requires
        lo % 2 == 1,
        lo + SEG_SIZE <= u64::MAX,
        limit < u64::MAX,
        forall|j: int|
            0 <= j < small_primes@.len() ==> #[trigger] small_primes@[j] > 0 && (small_primes@[j]
                == 2 || small_primes@[j] % 2 == 1),
    ensures
        nats_of(survivors@) == segment_survivors(
            lo as nat,
            segment_count(lo as nat, limit as nat),
            small_primes@,
        ),
{
    twin_primes::sieve_segment(lo, limit, small_primes)
}

/// Format an integer with thousands separators (e.g. 1_000_000 -> "1,000,000").
pub fn fmt_int(n: u64) -> (s: String)
    ensures
        s@ == digits::with_commas(n as nat),
{
    digits::fmt_int(n)
}

/// Sieve the segments starting at each of `starts` (up to `limit`) on the
/// rayon thread pool, with `sieve_segment`; the results come back in the
/// order of `starts` (rayon's `par_iter().map(..).collect()` into a `Vec`
/// keeps the order of the source): the contract claims one result per
/// start, each what `sieve_segment` promises for it.
#[verifier::external_body]
fn sieve_segments_in_parallel(starts: &Vec<u64>, limit: u64, small_primes: &[u64]) -> (segments:
    Vec<Vec<u64>>)
    requires
        forall|i: int|
            0 <= i < starts@.len() ==> #[trigger] starts@[i] % 2 == 1 && starts@[i] + SEG_SIZE
                <= u64::MAX,
        limit < u64::MAX,
        forall|j: int|
            0 <= j < small_primes@.len() ==> #[trigger] small_primes@[j] > 0 && (small_primes@[j]
                == 2 || small_primes@[j] % 2 == 1),
    ensures
        segments@.len() == starts@.len(),
        forall|i: int|
            0 <= i < starts@.len() ==> nats_of(#[trigger] segments@[i]@) == segment_survivors(
                starts@[i] as nat,
                segment_count(starts@[i] as nat, limit as nat),
                small_primes@,
            ),
{
    starts.par_iter().map(|&lo| twin_primes::sieve_segment(lo, limit, small_primes)).collect()
}

/// The start of the segmented phase: the first odd number above `sqrt_limit`.
pub fn phase2_start(sqrt_limit: u64) -> (lo: u64)
    requires
        sqrt_limit < u64::MAX - 1,
    ensures
        lo % 2 == 1,
        lo == sqrt_limit + 1 || lo == sqrt_limit + 2,
        lo == sqrt_limit + 2 ==> (sqrt_limit + 1) % 2 == 0,
{
    sqrt_limit + 1 + (sqrt_limit % 2)
}

/// The starts `block_lo, block_lo + SEG_SIZE, ...` of the segments of the
/// block `[block_lo, block_hi]`.
pub fn segment_starts(block_lo: u64, block_hi: u64) -> (starts: Vec<u64>)
    requires
        block_lo <= block_hi,
        block_hi + SEG_SIZE <= u64::MAX,
    ensures
        starts@.len() >= 1,
        forall|i: int|
            0 <= i < starts@.len() ==> #[trigger] starts@[i] == block_lo + i * SEG_SIZE
                && starts@[i] <= block_hi,
        block_lo + starts@.len() * SEG_SIZE > block_hi,
{
    let mut starts: Vec<u64> = Vec::new();
    let mut s = block_lo;
    starts.push(s);
    while s + SEG_SIZE <= block_hi
        invariant
            block_hi + SEG_SIZE <= u64::MAX,
            starts@.len() >= 1,
            s == block_lo + (starts@.len() - 1) * SEG_SIZE,
            s <= block_hi,
            forall|i: int|
                0 <= i < starts@.len() ==> #[trigger] starts@[i] == block_lo + i * SEG_SIZE
                    && starts@[i] <= block_hi,
        decreases block_hi - s,
    {
        s = s + SEG_SIZE;
        starts.push(s);
    }
    starts
}

/// Above the square root of the limit, a segment's survivors are the primes
/// of the segment.
proof fn lemma_segment_primes(lo: nat, limit: nat, sp: Seq<u64>, r: nat)
    requires
        nats_of(sp) == primes_below(r + 1),
        r * r > limit,
        r >= 2,
        lo % 2 == 1,
        lo > r,
        lo <= limit,
    ensures
        segment_survivors(lo, segment_count(lo, limit), sp) == primes_in(
            lo,
            segment_end(lo, limit),
        ),
{
    let count = segment_count(lo, limit);
    let hi = segment_end(lo, limit);
    let b = lo + 2 * count;
    twin_primes::lemma_segment_is_primes(lo, count, sp, r, limit);
    assert forall|x: int| hi <= x < b implies !#[trigger] is_prime(x) by {
        assert(x == lo + 2 * (count - 1) + 1);
        assert(x % 2 == 0);
        if is_prime(x) {
            twin_primes::lemma_even_prime(x);
        }
    }
    arith::lemma_primes_in_gap(lo, hi, b);
}

proof fn lemma_small_primes_shape(sp: Seq<u64>, r: nat)
    requires
        nats_of(sp) == primes_below(r + 1),
    ensures
        forall|j: int| 0 <= j < sp.len() ==> #[trigger] sp[j] > 0 && (sp[j] == 2 || sp[j] % 2 == 1),
{
    arith::lemma_primes_in_props(0, r + 1);
    assert forall|j: int| 0 <= j < sp.len() implies #[trigger] sp[j] > 0 && (sp[j] == 2 || sp[j]
        % 2 == 1) by {
        assert(nats_of(sp)[j] == sp[j] as nat);
        if sp[j] % 2 == 0 {
            twin_primes::lemma_even_prime(sp[j] as int);
        }
    }
}

/// Segment `i` of the block that starts at `block_lo` and ends at
/// `block_hi` starts inside the block and holds its primes.
pub open spec fn block_segment(seg: Seq<u64>, block_lo: u64, block_hi: u64, i: int) -> bool {
    &&& block_lo + i * SEG_SIZE <= block_hi
    &&& nats_of(seg) == primes_in(
        (block_lo + i * SEG_SIZE) as nat,
        segment_end((block_lo + i * SEG_SIZE) as nat, block_hi as nat),
    )
}

/// Sieve the block `[block_lo, block_hi]` segment by segment, the segments
/// in parallel, with the primes up to `sqrt_limit`, whose square exceeds
/// `block_hi`. Segment `i` starts at `block_lo + i * SEG_SIZE` and holds
/// the primes from there to the end of the segment.
pub fn sieve_block(block_lo: u64, block_hi: u64, sqrt_limit: u64, small_primes: &[u64]) -> (batch:
    Vec<Vec<u64>>)
    requires
        nats_of(small_primes@) == primes_below(sqrt_limit as nat + 1),
        sqrt_limit * sqrt_limit > block_hi,
        sqrt_limit >= 2,
        block_lo % 2 == 1,
        sqrt_limit < block_lo <= block_hi,
        block_hi + SEG_SIZE <= u64::MAX,
    ensures
        batch@.len() >= 1,
        block_lo + batch@.len() * SEG_SIZE > block_hi,
        forall|i: int|
            0 <= i < batch@.len() ==> #[trigger] block_segment(batch@[i]@, block_lo, block_hi, i),
{
    let seg_starts = segment_starts(block_lo, block_hi);
    proof {
        lemma_small_primes_shape(small_primes@, sqrt_limit as nat);
        assert forall|i: int| 0 <= i < seg_starts@.len() implies #[trigger] seg_starts@[i] % 2 == 1
            && seg_starts@[i] + SEG_SIZE <= u64::MAX by {
            assert(seg_starts@[i] == block_lo + i * SEG_SIZE);
            assert((block_lo + i * SEG_SIZE) % 2 == 1) by {
                vstd::arithmetic::div_mod::lemma_mod_multiples_vanish(
                    i * 262144,
                    block_lo as int,
                    2,
                );
            }
        }
    }
    let batch = sieve_segments_in_parallel(&seg_starts, block_hi, small_primes);
    proof {
        assert(batch@.len() == seg_starts@.len());
        assert forall|i: int| 0 <= i < batch@.len() implies #[trigger] block_segment(
            batch@[i]@,
            block_lo,
            block_hi,
            i,
        ) by {
            let s = seg_starts@[i];
            assert(s == block_lo + i * SEG_SIZE);
            lemma_segment_primes(s as nat, block_hi as nat, small_primes@, sqrt_limit as nat);
        }
    }
    batch
}

/// The block that starts at `block_lo` ends `BLOCK_SIZE - 1` later, or at `limit`.
pub fn block_end(block_lo: u64, limit: u64) -> (block_hi: u64)
    requires
        block_lo <= limit,
        limit + BLOCK_SIZE <= u64::MAX,
    ensures
        block_lo <= block_hi <= limit,
        block_hi == if block_lo + BLOCK_SIZE - 1 <= limit {
            block_lo + BLOCK_SIZE - 1
        } else {
            limit as int
        },
{
    if block_lo + BLOCK_SIZE - 1 <= limit {
        block_lo + BLOCK_SIZE - 1
    } else {
        limit
    }
}

/// The start of the block after the one that ends at `block_hi`: the first
/// odd number above `block_hi`.
pub fn next_block_start(block_hi: u64) -> (lo: u64)
    requires
        block_hi < u64::MAX - 1,
    ensures
        lo % 2 == 1,
        lo == block_hi + 1 || lo == block_hi + 2,
        lo == block_hi + 2 ==> (block_hi + 1) % 2 == 0,
{
    let lo = block_hi + 1;
    if lo % 2 == 0 {
        lo + 1
    } else {
        lo
    }
}

/// Append `more` to `out`.
fn append_primes(out: &mut Vec<u64>, more: &Vec<u64>)
    ensures
        nats_of(final(out)@) == nats_of(old(out)@) + nats_of(more@),
{
    let mut i: usize = 0;
    let ghost start = nats_of(out@);
    while i < more.len()
        invariant
            i <= more.len(),
            nats_of(out@) == start + nats_of(more@).subrange(0, i as int),
        decreases more.len() - i,
    {
        proof {
            arith::lemma_nats_of_push(out@, more@[i as int]);
            assert(nats_of(more@).subrange(0, i + 1) =~= nats_of(more@).subrange(0, i as int).push(
                more@[i as int] as nat,
            ));
        }
        out.push(more[i]);
        i = i + 1;
    }
    assert(nats_of(more@).subrange(0, i as int) =~= nats_of(more@));
}

/// An even number above 2 is not prime.
proof fn lemma_even_not_prime(x: int)
    requires
        x > 2,
        x % 2 == 0,
    ensures
        !is_prime(x),
{
    if is_prime(x) {
        twin_primes::lemma_even_prime(x);
    }
}

/// The integer square root of `limit` plus one: the bound of the first,
/// simple, sieve; its square exceeds `limit`.
pub fn sqrt_bound(limit: u64) -> (r: u64)
    ensures
        (r - 1) * (r - 1) <= limit < r * r,
        r >= 1,
{
    let root = arith::isqrt(limit);
    assert(root < 4294967296) by (nonlinear_arith)
        requires root * root <= limit, limit <= u64::MAX;
    root + 1
}

/// The primes up to a limit, produced a batch at a time: the primes up to
/// the square root of the limit first, then those of each block of
/// segments. Only one block is held at a time.
pub struct PrimeStream {
    limit: u64,
    sqrt_limit: u64,
    small_primes: Vec<u64>,
    block_lo: u64,
    started: bool,
    finished: bool,
    covered: Ghost<nat>,
}

impl PrimeStream {
    /// The limit: the primes up to and including it are produced.
    pub closed spec fn limit(&self) -> nat {
        self.limit as nat
    }

    /// The primes produced so far are `primes_below(covered())`.
    pub closed spec fn covered(&self) -> nat {
        self.covered@
    }

    /// A measure that every batch decreases.
    pub closed spec fn remaining(&self) -> nat {
        if self.finished {
            0
        } else if !self.started {
            (self.limit + 3) as nat
        } else {
            (self.limit + 2 - self.block_lo) as nat
        }
    }

    /// The state is consistent.
    pub closed spec fn wf(&self) -> bool {
        let r = self.sqrt_limit;
        &&& self.limit + BLOCK_SIZE <= u64::MAX
        &&& self.covered@ <= self.limit + 1
        &&& self.finished ==> self.covered@ == self.limit + 1
        &&& !self.finished ==> {
            &&& 2 <= self.limit
            &&& nats_of(self.small_primes@) == primes_below(r as nat + 1)
            &&& r * r > self.limit
            &&& 2 <= r
            &&& (r - 1) * (r - 1) <= self.limit
            &&& !self.started ==> self.covered@ == 0
            &&& self.started ==> {
                &&& self.block_lo % 2 == 1
                &&& r < self.block_lo <= self.limit
                &&& self.covered@ == self.block_lo
            }
        }
    }

    /// A stream of the primes up to `limit`; nothing is produced yet.
    pub fn new(limit: u64) -> (s: PrimeStream)
        requires
            limit + BLOCK_SIZE <= u64::MAX,
            limit < (isize::MAX - 1) * (isize::MAX - 1),
        ensures
            s.wf(),
            s.limit() == limit,
            primes_below(s.covered()) == Seq::<nat>::empty(),
    {
        proof {
            assert(primes_in(0, 0) =~= Seq::empty());
        }
        if limit < 2 {
            proof {
                assert(!is_prime(0));
                assert(!is_prime(1));
                assert(primes_in(0, 1) =~= Seq::empty());
                assert(primes_in(0, 2) =~= Seq::empty());
            }
            return PrimeStream {
                limit,
                sqrt_limit: 0,
                small_primes: Vec::new(),
                block_lo: 0,
                started: false,
                finished: true,
                covered: Ghost(limit as nat + 1),
            };
        }
        let sqrt_limit = sqrt_bound(limit);
        assert(sqrt_limit < isize::MAX) by (nonlinear_arith)
            requires
                (sqrt_limit - 1) * (sqrt_limit - 1) <= limit,
                limit < (isize::MAX - 1) * (isize::MAX - 1),
                isize::MAX > 1,
                sqrt_limit >= 1,
        ;
        assert(sqrt_limit >= 2) by (nonlinear_arith)
            requires limit < sqrt_limit * sqrt_limit, limit >= 2;
        let small_primes = small_sieve(sqrt_limit);
        PrimeStream {
            limit,
            sqrt_limit,
            small_primes,
            block_lo: 0,
            started: false,
            finished: false,
            covered: Ghost(0),
        }
    }

    /// Every number below the returned one has been sieved and its primes
    /// produced.
    pub fn sieved_below(&self) -> (n: u64)
        requires
            self.wf(),
        ensures
            n == self.covered(),
    {
        if self.finished {
            self.limit + 1
        } else if !self.started {
            0
        } else {
            self.block_lo
        }
    }

    /// The next batch of primes, in increasing order, or `None` once every
    /// prime up to the limit has been produced.
    pub fn next_primes(&mut self) -> (r: Option<Vec<u64>>)
        requires
            old(self).wf(),
        ensures
            final(self).wf(),
            final(self).limit() == old(self).limit(),
            final(self).remaining() <= old(self).remaining(),
            match r {
                Some(v) => primes_below(final(self).covered()) == primes_below(old(self).covered())
                    + nats_of(v@) && final(self).remaining() < old(self).remaining(),
                None => old(self).covered() == old(self).limit() + 1 && final(self).covered()
                    == old(self).covered(),
            },
    {
        if self.finished {
            return None;
        }
        let limit = self.limit;
        let sqrt_limit = self.sqrt_limit;
        let mut out: Vec<u64> = Vec::new();
        if !self.started {
            append_primes(&mut out, &self.small_primes);
            proof {
                assert(nats_of(Seq::<u64>::empty()) =~= Seq::empty());
                assert(primes_below(0) + nats_of(out@) =~= nats_of(out@));
            }
            self.started = true;
            if limit <= sqrt_limit {
                assert(sqrt_limit == limit) by (nonlinear_arith)
                    requires
                        (sqrt_limit - 1) * (sqrt_limit - 1) <= limit,
                        limit <= sqrt_limit,
                        limit >= 2,
                ;
                self.finished = true;
                self.covered = Ghost(limit as nat + 1);
                return Some(out);
            }
            let block_lo = phase2_start(sqrt_limit);
            proof {
                if block_lo == sqrt_limit + 2 {
                    lemma_even_not_prime(sqrt_limit + 1);
                }
                arith::lemma_primes_in_gap(0, sqrt_limit as nat + 1, block_lo as nat);
            }
            self.block_lo = block_lo;
            if block_lo > limit {
                proof {
                    assert(block_lo == limit + 1);
                }
                self.finished = true;
                self.covered = Ghost(limit as nat + 1);
            } else {
                self.covered = Ghost(block_lo as nat);
            }
            return Some(out);
        }
        let block_lo = self.block_lo;
        let ghost base = primes_below(block_lo as nat);
        let block_hi = block_end(block_lo, limit);
        let batch = sieve_block(block_lo, block_hi, sqrt_limit, &self.small_primes);
        let mut k: usize = 0;
        proof {
            assert(base + nats_of(out@) =~= base);
        }
        while k < batch.len()
            invariant
                base == primes_below(block_lo as nat),
                batch@.len() >= 1,
                block_lo + batch@.len() * SEG_SIZE > block_hi,
                block_lo <= block_hi,
                forall|i: int|
                    0 <= i < batch@.len() ==> #[trigger] block_segment(
                        batch@[i]@,
                        block_lo,
                        block_hi,
                        i,
                    ),
                k <= batch@.len(),
                base + nats_of(out@) == primes_below(
                    if k == 0 {
                        block_lo as nat
                    } else {
                        segment_end((block_lo + (k - 1) * SEG_SIZE) as nat, block_hi as nat)
                    },
                ),
            decreases batch@.len() - k,
        {
            let ghost s = (block_lo + k * SEG_SIZE) as nat;
            let ghost before = nats_of(out@);
            proof {
                let prev_end = if k == 0 {
                    block_lo as nat
                } else {
                    segment_end((block_lo + (k - 1) * SEG_SIZE) as nat, block_hi as nat)
                };
                assert(block_segment(batch@[k as int]@, block_lo, block_hi, k as int));
                if k > 0 {
                    assert(block_segment(
                        batch@[k - 1]@,
                        block_lo,
                        block_hi,
                        k - 1,
                    ));
                }
                assert(prev_end == s);
                arith::lemma_primes_in_split(0, s, segment_end(s, block_hi as nat));
                assert(nats_of(batch@[k as int]@) == primes_in(s, segment_end(s, block_hi as nat)));
            }
            append_primes(&mut out, &batch[k]);
            proof {
                assert(base + nats_of(out@) =~= (base + before) + nats_of(batch@[k as int]@));
            }
            k = k + 1;
        }
        proof {
            let last = (block_lo + (k - 1) * SEG_SIZE) as nat;
            assert(segment_end(last, block_hi as nat) == block_hi + 1);
        }
        if block_hi == limit {
            self.finished = true;
            self.covered = Ghost(limit as nat + 1);
            return Some(out);
        }
        let next = next_block_start(block_hi);
        proof {
            if next == block_hi + 2 {
                lemma_even_not_prime(block_hi + 1);
            }
            arith::lemma_primes_in_gap(0, block_hi as nat + 1, next as nat);
        }
        self.block_lo = next;
        if next > limit {
            proof {
                assert(next == limit + 1);
            }
            self.finished = true;
            self.covered = Ghost(limit as nat + 1);
        } else {
            self.covered = Ghost(next as nat);
        }
        Some(out)
    }
}

/// Find all primes up to `limit`, in increasing order: the primes up to the
/// square root first, then the rest, block by block.
pub fn find_primes(limit: u64) -> (primes: Vec<u64>)
    requires
        limit + BLOCK_SIZE <= u64::MAX,
        limit < (isize::MAX - 1) * (isize::MAX - 1),
    ensures
        nats_of(primes@) == primes_below(limit as nat + 1),
{
    let mut stream = PrimeStream::new(limit);
    let mut primes: Vec<u64> = Vec::new();
    let mut done = false;
    proof {
        assert(nats_of(primes@) =~= Seq::empty());
    }
    while !done
        invariant
            stream.wf(),
            stream.limit() == limit,
            nats_of(primes@) == primes_below(stream.covered()),
            done ==> stream.covered() == limit + 1,
        decreases stream.remaining(), if done { 0int } else { 1int },
    {
        match stream.next_primes() {
            Some(batch) => {
                append_primes(&mut primes, &batch);
            },
            None => {
                done = true;
            },
        }
    }
    primes
}

} // verus!
