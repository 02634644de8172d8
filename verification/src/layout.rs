//! How many shards there are, and which shard a thread uses.

use vstd::arithmetic::power2::*;
use vstd::prelude::*;

verus! {

/// Whether `n` is a power of two.
pub open spec fn is_power_of_two(n: int) -> bool {
    exists|k: nat| n == #[trigger] pow2(k)
}

/// The shard counts a stack can have: a power of two, with one bit of a word per shard.
pub open spec fn valid_shard_count(n: int) -> bool {
    is_power_of_two(n) && n <= usize::BITS
}

/// Why a shard count was refused.
#[derive(Debug, Clone, Copy, PartialEq, Eq, Structural)]
pub enum ShardCountError {
    Zero,
    NotPowerOfTwo,
    TooMany,
}

impl ShardCountError {
    /// The text shown to a user.
    pub fn message(&self) -> (text: &'static str)
        ensures
            text@ == match *self {
                ShardCountError::Zero => "shard_count must be non-zero"@,
                ShardCountError::NotPowerOfTwo => "shard_count must be a power of two"@,
                ShardCountError::TooMany => "shard_count must not exceed usize::BITS"@,
            },
    {
        match self {
            ShardCountError::Zero => "shard_count must be non-zero",
            ShardCountError::NotPowerOfTwo => "shard_count must be a power of two",
            ShardCountError::TooMany => "shard_count must not exceed usize::BITS",
        }
    }
}

/// Whether `r` is the least power of two that is not below `n`.
pub open spec fn is_next_power_of_two(n: int, r: int) -> bool {
    &&& is_power_of_two(r)
    &&& n <= r
    &&& forall|m: int| #[trigger] is_power_of_two(m) && n <= m ==> r <= m
}

/// A nonzero word is a power of two exactly when clearing its lowest set bit leaves nothing.
proof fn lemma_power_of_two_test(n: usize)
    requires
        n > 0,
    ensures
        n & ((n - 1) as usize) == 0 <==> is_power_of_two(n as int),
    decreases n,
{
    lemma2_to64();
    if n == 1 {
        assert(1usize & 0usize == 0) by (bit_vector);
        assert(n == pow2(0));
    } else {
        let h = n / 2;
        lemma_power_of_two_test(h);
        if n % 2 == 0 {
            assert(n & ((n - 1) as usize) == 0 <==> h & ((h - 1) as usize) == 0) by (bit_vector)
                requires
                    n > 1,
                    n % 2 == 0,
                    h == n / 2,
            ;
            if is_power_of_two(h as int) {
                let k = choose|k: nat| h as int == #[trigger] pow2(k);
                lemma_pow2_unfold(k + 1);
                assert(n == pow2(k + 1));
            }
            if is_power_of_two(n as int) {
                let k = choose|k: nat| n as int == #[trigger] pow2(k);
                lemma_pow2_unfold(k);
                assert(h == pow2((k - 1) as nat));
            }
        } else {
            assert(n & ((n - 1) as usize) != 0) by (bit_vector)
                requires
                    n > 1,
                    n % 2 == 1,
            ;
            if is_power_of_two(n as int) {
                let k = choose|k: nat| n as int == #[trigger] pow2(k);
                lemma_pow2_unfold(k);
            }
        }
    }
}

/// The seven shard counts that exist at most.
pub proof fn lemma_valid_shard_counts(n: int)
    requires
        valid_shard_count(n),
    ensures
        n == 1 || n == 2 || n == 4 || n == 8 || n == 16 || n == 32 || n == 64,
{
    lemma2_to64();
    let k = choose|k: nat| n == #[trigger] pow2(k);
    if k > 6 {
        lemma_pow2_strictly_increases(6, k);
    }
    assert(k == 0 || k == 1 || k == 2 || k == 3 || k == 4 || k == 5 || k == 6);
}

/// The distance of two shards is less than the shard count.
pub proof fn lemma_distance_below(a: usize, b: usize, shard_count: usize)
    requires
        valid_shard_count(shard_count as int),
        a < shard_count,
        b < shard_count,
    ensures
        a ^ b < shard_count,
{
    lemma_valid_shard_counts(shard_count as int);
    assert(a ^ b < shard_count) by (bit_vector)
        requires
            a < shard_count,
            b < shard_count,
            shard_count == 1 || shard_count == 2 || shard_count == 4 || shard_count == 8
                || shard_count == 16 || shard_count == 32 || shard_count == 64,
    ;
}

/// Tells whether a stack can have `shard_count` shards. A count that breaks several rules is
/// reported under the first of them.
pub fn check_shard_count(shard_count: usize) -> (verdict: Result<(), ShardCountError>)
    ensures
        verdict is Ok <==> valid_shard_count(shard_count as int),
        verdict == Err::<(), _>(ShardCountError::Zero) <==> shard_count == 0,
        verdict == Err::<(), _>(ShardCountError::NotPowerOfTwo) <==> shard_count > 0
            && !is_power_of_two(shard_count as int),
        verdict == Err::<(), _>(ShardCountError::TooMany) <==> is_power_of_two(shard_count as int)
            && shard_count > usize::BITS,
{
    if shard_count == 0 {
        proof {
            lemma_zero_is_no_power_of_two();
        }
        return Err(ShardCountError::Zero);
    }
    proof {
        lemma_power_of_two_test(shard_count);
    }
    if shard_count & (shard_count - 1) != 0 {
        return Err(ShardCountError::NotPowerOfTwo);
    }
    if shard_count > usize::BITS as usize {
        return Err(ShardCountError::TooMany);
    }
    Ok(())
}

proof fn lemma_zero_is_no_power_of_two()
    ensures
        !is_power_of_two(0),
{
    assert forall|k: nat| 0 != #[trigger] pow2(k) by {
        lemma_pow2_pos(k);
    }
}

/// Whether `shard_count` suits a machine that runs `parallelism` threads at a time.
pub open spec fn is_default(parallelism: Option<usize>, shard_count: int) -> bool {
    match parallelism {
        Some(n) => is_next_power_of_two(
            if n <= usize::BITS {
                n as int
            } else {
                usize::BITS as int
            },
            shard_count,
        ),
        None => shard_count == 4,
    }
}

/// The shard count for a machine that runs `parallelism` threads at a time: the next power of
/// two, and no more than a word has bits. Where the machine does not tell, four.
pub fn default_concurrency(parallelism: Option<usize>) -> (shard_count: usize)
    requires
        parallelism matches Some(n) ==> 0 < n <= usize::MAX / 2 + 1,
    ensures
        valid_shard_count(shard_count as int),
        is_default(parallelism, shard_count as int),
        match parallelism {
            Some(n) => is_next_power_of_two(
                if n <= usize::BITS {
                    n as int
                } else {
                    usize::BITS as int
                },
                shard_count as int,
            ),
            None => shard_count == 4,
        },
{
    proof {
        lemma2_to64();
    }
    match parallelism {
        Some(n) => {
            let limit: usize = usize::BITS as usize;
            let wanted: usize = if n <= limit {
                n
            } else {
                limit
            };
            let mut count: usize = 1;
            let ghost mut k: nat = 0;
            while count < wanted
                invariant
                    wanted <= limit,
                    limit == usize::BITS,
                    0 < wanted,
                    count == pow2(k),
                    count <= limit,
                    k > 0 ==> pow2((k - 1) as nat) < wanted,
                decreases limit - count,
            {
                proof {
                    lemma2_to64();
                    lemma_pow2_unfold(k + 1);
                    assert(valid_shard_count(count as int));
                    lemma_valid_shard_counts(count as int);
                    k = k + 1;
                }
                count = count * 2;
            }
            proof {
                assert(is_power_of_two(count as int));
                assert forall|m: int| #[trigger] is_power_of_two(m) && wanted <= m implies count
                    <= m by {
                    let e = choose|e: nat| m == #[trigger] pow2(e);
                    if e < k {
                        if e < k - 1 {
                            lemma_pow2_strictly_increases(e, (k - 1) as nat);
                        }
                        assert(false);
                    }
                    if k < e {
                        lemma_pow2_strictly_increases(k, e);
                    }
                }
            }
            count
        },
        None => {
            assert(4 == pow2(2));
            4
        },
    }
}

/// The shard of a thread.
pub open spec fn shard_of(thread_id: int, shard_count: int) -> int {
    thread_id % shard_count
}

/// Maps threads to shards.
#[derive(Debug, Clone, Copy)]
pub struct ShardLayout {
    shard_index_mask: usize,
}

impl ShardLayout {
    /// The number of shards.
    pub closed spec fn count(self) -> int {
        self.shard_index_mask + 1
    }

    pub open spec fn wf(self) -> bool {
        valid_shard_count(self.count())
    }

    pub fn new(shard_count: usize) -> (layout: Self)
        requires
            valid_shard_count(shard_count as int),
        ensures
            layout.wf(),
            layout.count() == shard_count,
    {
        proof {
            lemma_valid_shard_counts(shard_count as int);
        }
        ShardLayout { shard_index_mask: shard_count - 1 }
    }

    pub fn shard_count(&self) -> (count: usize)
        requires
            self.wf(),
        ensures
            count == self.count(),
            count > 0,
    {
        proof {
            lemma_valid_shard_counts(self.count());
        }
        self.shard_index_mask + 1
    }

    /// The shard that the thread numbered `thread_id` pushes to and pops from first.
    pub fn shard_index(&self, thread_id: usize) -> (index: usize)
        requires
            self.wf(),
        ensures
            index == shard_of(thread_id as int, self.count()),
            index == thread_id as int % self.count(),
            index < self.count(),
    {
        proof {
            let count = self.count();
            let k = choose|k: nat| count == #[trigger] pow2(k);
            lemma_valid_shard_counts(count);
            lemma2_to64();
            if k > 6 {
                lemma_pow2_strictly_increases(6, k);
            }
            vstd::bits::lemma_usize_low_bits_mask_is_mod(thread_id, k);
        }
        thread_id & self.shard_index_mask
    }
}

/// The shard counts that a stack can have are the powers of two up to the bits of a word.
pub proof fn law_shard_counts(n: int)
    ensures
        valid_shard_count(n) <==> n <= usize::BITS && (n == 1 || n == 2 || n == 4 || n == 8 || n
            == 16 || n == 32 || n == 64),
{
    lemma2_to64();
    if valid_shard_count(n) {
        lemma_valid_shard_counts(n);
    }
    assert(1 == pow2(0) && 2 == pow2(1) && 4 == pow2(2) && 8 == pow2(3) && 16 == pow2(4) && 32
        == pow2(5) && 64 == pow2(6));
}

/// The next power of two is a power of two, not less than the number, and less than twice it; and
/// there is only one such.
pub proof fn law_next_power_of_two(n: int, r: int)
    requires
        n > 0,
    ensures
        is_next_power_of_two(n, r) <==> is_power_of_two(r) && n <= r < 2 * n,
        is_power_of_two(n) ==> is_next_power_of_two(n, n),
{
    if is_power_of_two(r) && n <= r {
        let k = choose|k: nat| r == #[trigger] pow2(k);
        if is_next_power_of_two(n, r) && r >= 2 * n {
            if k == 0 {
                lemma2_to64();
            } else {
                lemma_pow2_unfold(k);
                assert(is_power_of_two(pow2((k - 1) as nat) as int));
            }
        }
        if r < 2 * n {
            assert forall|m: int| #[trigger] is_power_of_two(m) && n <= m implies r <= m by {
                let e = choose|e: nat| m == #[trigger] pow2(e);
                if e < k {
                    lemma_pow2_unfold(k);
                    if e < k - 1 {
                        lemma_pow2_strictly_increases(e, (k - 1) as nat);
                    }
                } else if k < e {
                    lemma_pow2_strictly_increases(k, e);
                }
            }
        }
    }
}

/// Threads are spread over the shards: the first ones get a shard each, and then it starts over.
/// Of as many threads in a row as there are shards, no two share one.
pub proof fn law_threads_are_spread(thread_id: int, other: int, shard_count: int)
    requires
        thread_id >= 0,
        shard_count > 0,
    ensures
        0 <= shard_of(thread_id, shard_count) < shard_count,
        thread_id < shard_count ==> shard_of(thread_id, shard_count) == thread_id,
        shard_of(thread_id + shard_count, shard_count) == shard_of(thread_id, shard_count),
        thread_id < other < thread_id + shard_count ==> shard_of(other, shard_count) != shard_of(
            thread_id,
            shard_count,
        ),
{
    vstd::arithmetic::div_mod::lemma_mod_bound(thread_id, shard_count);
    vstd::arithmetic::div_mod::lemma_mod_add_multiples_vanish(thread_id, shard_count);
    if thread_id < shard_count {
        vstd::arithmetic::div_mod::lemma_small_mod(thread_id as nat, shard_count as nat);
    }
    if thread_id < other < thread_id + shard_count && other % shard_count == thread_id
        % shard_count {
        vstd::arithmetic::div_mod::lemma_fundamental_div_mod(thread_id, shard_count);
        vstd::arithmetic::div_mod::lemma_fundamental_div_mod(other, shard_count);
        let a = thread_id / shard_count;
        let b = other / shard_count;
        assert(shard_count * b - shard_count * a == shard_count * (b - a)) by (nonlinear_arith);
        assert(0 < shard_count * (b - a) < shard_count);
        assert(b - a <= 0 || b - a >= 1);
        assert(b - a <= 0 ==> shard_count * (b - a) <= 0) by (nonlinear_arith)
            requires
                shard_count > 0,
        ;
        assert(b - a >= 1 ==> shard_count * (b - a) >= shard_count) by (nonlinear_arith)
            requires
                shard_count > 0,
        ;
    }
}

/// A machine gets a shard for each thread that it runs at a time, fewer than twice as many, and
/// never more than a word has bits; where it does not tell, there are four.
pub proof fn law_default_concurrency(parallelism: Option<usize>, shard_count: int)
    requires
        is_default(parallelism, shard_count),
        parallelism matches Some(n) ==> n > 0,
    ensures
        valid_shard_count(shard_count),
        match parallelism {
            Some(n) => if n <= usize::BITS {
                n <= shard_count < 2 * n
            } else {
                shard_count == usize::BITS
            },
            None => shard_count == 4,
        },
{
    lemma2_to64();
    assert(is_power_of_two(usize::BITS as int)) by {
        assert(usize::BITS == pow2(5) || usize::BITS == pow2(6));
    }
    match parallelism {
        Some(n) => {
            if n <= usize::BITS {
                law_next_power_of_two(n as int, shard_count);
            }
        },
        None => {
            assert(4 == pow2(2));
        },
    }
}

} // verus!
