//! Collatz chains: the number of steps each start takes to reach 1, memoised
//! in a cache, and the starts whose chain is longer than that of every
//! smaller start.
use vstd::prelude::*;

verus! {

/// One step of the Collatz map: halve an even number, else `3n + 1`.
pub open spec fn collatz_step(n: nat) -> nat {
    if n % 2 == 0 {
        n / 2
    } else {
        3 * n + 1
    }
}

/// `n` after `k` steps.
pub open spec fn collatz_iter(n: nat, k: nat) -> nat
    decreases k,
{
    if k == 0 {
        n
    } else {
        collatz_step(collatz_iter(n, (k - 1) as nat))
    }
}

/// The chain from `n` first reaches 1 after exactly `k` steps.
pub open spec fn reaches_one_in(n: nat, k: nat) -> bool {
    collatz_iter(n, k) == 1 && forall|j: nat| j < k ==> #[trigger] collatz_iter(n, j) != 1
}

/// The chain from `n` reaches 1.
pub open spec fn reaches_one(n: nat) -> bool {
    exists|k: nat| reaches_one_in(n, k)
}

/// The number of steps the chain from `n` takes to reach 1 (meaningful
/// when it does).
pub open spec fn chain_steps(n: nat) -> nat {
    choose|k: nat| reaches_one_in(n, k)
}

/// Before reaching 1, the chain from `n` never meets an odd `v` whose
/// successor `3v + 1` exceeds `u64::MAX`.
pub open spec fn fits_u64_until(n: nat, k: nat) -> bool {
    forall|j: nat|
        j < k ==> (#[trigger] collatz_iter(n, j) % 2 == 1 ==> 3 * collatz_iter(n, j) + 1
            <= u64::MAX)
}

/// The start `n` reaches 1, without leaving `u64` and in fewer than
/// `u32::MAX` steps.
pub open spec fn chain_computable(n: nat) -> bool {
    &&& n >= 1
    &&& reaches_one(n)
    &&& fits_u64_until(n, chain_steps(n))
    &&& chain_steps(n) < u32::MAX
}

/// Every nonzero entry `v >= 1` of the cache holds `chain_steps(v) + 1`,
/// and the entry for 1 is set; the entry for 0 is never read.
pub open spec fn cache_valid(cache: Seq<u32>, limit: nat) -> bool {
    &&& cache.len() == limit + 1
    &&& limit >= 1
    &&& cache[1] == 1
    &&& forall|v: int|
        1 <= v <= limit && #[trigger] cache[v] != 0 ==> reaches_one(v as nat) && cache[v]
            == chain_steps(v as nat) + 1
}

/// The next term of the Collatz sequence.
pub fn collatz_next(n: u64) -> (r: u64)
    requires
        n % 2 == 1 ==> 3 * n + 1 <= u64::MAX,
    ensures
        r == collatz_step(n as nat),
{
    if n % 2 == 0 {
        n / 2
    } else {
        3 * n + 1
    }
}

proof fn lemma_iter_add(n: nat, j: nat, t: nat)
    ensures
        collatz_iter(collatz_iter(n, j), t) == collatz_iter(n, j + t),
    decreases t,
{
    if t > 0 {
        lemma_iter_add(n, j, (t - 1) as nat);
    }
}

proof fn lemma_zero_stays(t: nat)
    ensures
        collatz_iter(0, t) == 0,
    decreases t,
{
    if t > 0 {
        lemma_zero_stays((t - 1) as nat);
    }
}

proof fn lemma_reaches_unique(n: nat, k1: nat, k2: nat)
    requires
        reaches_one_in(n, k1),
        reaches_one_in(n, k2),
    ensures
        k1 == k2,
{
    if k1 < k2 {
        assert(collatz_iter(n, k1) != 1);
    }
    if k2 < k1 {
        assert(collatz_iter(n, k2) != 1);
    }
}

/// After `j` of its steps, a chain has `chain_steps(n) - j` steps left.
proof fn lemma_steps_shift(n: nat, j: nat)
    requires
        reaches_one(n),
        j <= chain_steps(n),
    ensures
        reaches_one(collatz_iter(n, j)),
        chain_steps(collatz_iter(n, j)) == chain_steps(n) - j,
{
    let k = chain_steps(n);
    let m = collatz_iter(n, j);
    let t = (k - j) as nat;
    lemma_iter_add(n, j, t);
    assert forall|s: nat| s < t implies #[trigger] collatz_iter(m, s) != 1 by {
        lemma_iter_add(n, j, s);
        assert(collatz_iter(n, j + s) != 1);
    }
    assert(reaches_one_in(m, t));
    lemma_reaches_unique(m, t, chain_steps(m));
}

/// The number of steps the Collatz chain from `n` takes to reach 1, using
/// and filling `cache` (entry `v` holds its step count plus one, or 0 when
/// not yet known) for every value up to `limit`.
pub fn chain_length(n: u64, cache: &mut [u32], limit: u64) -> (len: u32)
    requires
        1 <= n <= limit,
        cache_valid(old(cache)@, limit as nat),
        chain_computable(n as nat),
    ensures
        len == chain_steps(n as nat),
        cache_valid(final(cache)@, limit as nat),
        final(cache)@[n as int] == chain_steps(n as nat) + 1,
        forall|v: int|
            0 <= v <= limit && #[trigger] old(cache)@[v] != 0 ==> final(cache)@[v] == old(
                cache,
            )@[v],
        forall|v: int|
            0 <= v <= limit && #[trigger] final(cache)@[v] != old(cache)@[v] ==> exists|j: nat|
                j < chain_steps(n as nat) && collatz_iter(n as nat, j) == v,
{
    let ghost k = chain_steps(n as nat);
    let ghost c0 = cache@;
    proof {
        lemma_iter_add(n as nat, 0, 0);
    }
    let mut path: Vec<u64> = Vec::new();
    let mut curr = n;
    while !(curr <= limit && cache[curr as usize] != 0)
        invariant
            cache@ == c0,
            cache_valid(c0, limit as nat),
            1 <= n <= limit,
            chain_computable(n as nat),
            k == chain_steps(n as nat),
            reaches_one_in(n as nat, k),
            path.len() <= k,
            curr == collatz_iter(n as nat, path.len() as nat),
            forall|j: int| 0 <= j < path.len() ==> path@[j] == collatz_iter(n as nat, j as nat),
        decreases k - path.len(),
    {
        assert(path.len() < k) by {
            if path.len() == k {
                assert(curr == 1);
            }
        }
        assert(fits_u64_until(n as nat, k));
        assert(collatz_iter(n as nat, path.len() as nat) % 2 == 1 ==> 3 * collatz_iter(
            n as nat,
            path.len() as nat,
        ) + 1 <= u64::MAX);
        path.push(curr);
        curr = collatz_next(curr);
    }
    let base = cache[curr as usize];
    let ghost len_path = path.len();
    proof {
        lemma_steps_shift(n as nat, len_path as nat);
        if curr == 0 {
            lemma_zero_stays(chain_steps(0));
        }
    }
    assert(base == k - len_path + 1);
    let mut i: usize = 0;
    while i < path.len()
        invariant
            cache@.len() == limit + 1,
            cache_valid(cache@, limit as nat),
            cache_valid(c0, limit as nat),
            1 <= n <= limit,
            reaches_one(n as nat),
            k == chain_steps(n as nat),
            k < u32::MAX,
            len_path == path.len(),
            len_path <= k,
            base == k - len_path + 1,
            i <= len_path,
            forall|j: int| 0 <= j < path.len() ==> path@[j] == collatz_iter(n as nat, j as nat),
            len_path == 0 ==> c0[n as int] != 0,
            i == len_path && len_path > 0 ==> cache@[n as int] != 0,
            forall|v: int| 0 <= v <= limit && #[trigger] c0[v] != 0 ==> cache@[v] == c0[v],
            forall|v: int|
                0 <= v <= limit && #[trigger] cache@[v] != c0[v] ==> exists|j: nat|
                    j < k && collatz_iter(n as nat, j) == v,
        decreases len_path - i,
    {
        let val = path[path.len() - 1 - i];
        if val <= limit {
            let ghost j = (len_path - 1 - i) as nat;
            proof {
                lemma_steps_shift(n as nat, j);
            }
            let new_len = base + i as u32 + 1;
            assert(new_len == chain_steps(val as nat) + 1);
            proof {
                if val == 0 {
                    lemma_zero_stays(chain_steps(0));
                }
            }
            let ghost before = cache@;
            cache[val as usize] = new_len;
            proof {
                assert forall|v: int|
                    1 <= v <= limit && #[trigger] cache@[v] != 0 implies reaches_one(v as nat)
                    && cache@[v] == chain_steps(v as nat) + 1 by {
                    if v != val {
                        assert(before[v] == cache@[v]);
                    }
                }
                assert(cache@[1] == 1);
                assert forall|v: int|
                    0 <= v <= limit && #[trigger] cache@[v] != c0[v] implies exists|j: nat|
                    j < k && collatz_iter(n as nat, j) == v by {
                    if v == val {
                        assert(collatz_iter(n as nat, j) == v);
                    }
                }
                if j == 0 {
                    assert(val == n);
                }
            }
        }
        i = i + 1;
    }
    proof {
        if len_path > 0 {
            assert(path@[0] == n);
        }
    }
    cache[n as usize] - 1
}

/// `n` is a record: its chain is longer than that of every smaller start.
pub open spec fn is_record(n: nat) -> bool {
    n >= 1 && forall|m: nat| 1 <= m < n ==> #[trigger] chain_steps(m) < chain_steps(n)
}

/// The records below `b`, with their step counts, in increasing order.
pub open spec fn records_below(b: nat) -> Seq<(nat, nat)>
    decreases b,
{
    if b == 0 {
        Seq::empty()
    } else {
        let n = (b - 1) as nat;
        if is_record(n) {
            records_below(n).push((n, chain_steps(n)))
        } else {
            records_below(n)
        }
    }
}

/// The values of a sequence of `(u64, u32)` pairs, as pairs of naturals.
pub open spec fn records_of(s: Seq<(u64, u32)>) -> Seq<(nat, nat)> {
    s.map_values(|r: (u64, u32)| (r.0 as nat, r.1 as nat))
}

/// The largest step count among the starts in `[1, b)`, or -1 if there is none.
pub open spec fn max_steps_below(b: nat) -> int
    decreases b,
{
    if b <= 1 {
        -1
    } else {
        let m = (b - 1) as nat;
        let prev = max_steps_below(m);
        if chain_steps(m) > prev {
            chain_steps(m) as int
        } else {
            prev
        }
    }
}

proof fn lemma_max_steps(b: nat)
    ensures
        forall|m: nat| 1 <= m < b ==> #[trigger] chain_steps(m) <= max_steps_below(b),
        b > 1 ==> exists|m: nat| 1 <= m < b && chain_steps(m) == max_steps_below(b),
        b <= 1 ==> max_steps_below(b) == -1,
    decreases b,
{
    if b > 1 {
        lemma_max_steps((b - 1) as nat);
    }
}

proof fn lemma_record_iff(n: nat)
    requires
        n >= 1,
    ensures
        is_record(n) <==> chain_steps(n) > max_steps_below(n),
{
    lemma_max_steps(n);
    if is_record(n) && n > 1 {
        let m = choose|m: nat| 1 <= m < n && chain_steps(m) == max_steps_below(n);
        assert(chain_steps(m) < chain_steps(n));
    }
}

/// The Collatz records among the starts `1..=limit`: each start whose chain
/// is longer than every earlier one, with its step count, in increasing
/// order of start.
pub fn generate_records(limit: u64) -> (records: Vec<(u64, u32)>)
    requires
        1 <= limit < usize::MAX,
        forall|n: nat| 1 <= n <= limit ==> #[trigger] chain_computable(n),
    ensures
        records_of(records@) == records_below(limit as nat + 1),
{
    let mut cache: Vec<u32> = vec![0u32; (limit + 1) as usize];
    cache.set(1, 1);
    proof {
        assert(reaches_one_in(1, 0));
        lemma_reaches_unique(1, 0, chain_steps(1));
        assert(cache_valid(cache@, limit as nat));
    }
    let mut max_len: i64 = -1;
    let mut records: Vec<(u64, u32)> = Vec::new();
    let mut n: u64 = 1;
    proof {
        assert(records_of(records@) =~= Seq::empty());
        assert(records_below(1) =~= Seq::empty()) by {
            assert(!is_record(0));
            assert(records_below(0) =~= Seq::empty());
        }
    }
    while n <= limit
        invariant
            1 <= n <= limit + 1,
            limit < usize::MAX,
            forall|n: nat| 1 <= n <= limit ==> #[trigger] chain_computable(n),
            cache_valid(cache@, limit as nat),
            max_len == max_steps_below(n as nat),
            records_of(records@) == records_below(n as nat),
        decreases limit + 1 - n,
    {
        assert(chain_computable(n as nat));
        let length = chain_length(n, cache.as_mut_slice(), limit);
        proof {
            lemma_record_iff(n as nat);
        }
        if length as i64 > max_len {
            max_len = length as i64;
            proof {
                assert(records_of(records@.push((n, length))) =~= records_of(records@).push(
                    (n as nat, length as nat),
                ));
            }
            records.push((n, length));
        }
        n = n + 1;
    }
    records
}

} // verus!
