use vstd::prelude::*;

verus! {

/// Bytes of one record in an intermediate stream, the unit of the sizing rule.
pub const RECORD_SIZE: u64 = 36;

/// Largest `k`: nonces are four bytes, so table 0 holds at most 2^32 records.
pub const MAX_K: u32 = 32;

/// Two to the power `k`.
pub open spec fn two_to(k: nat) -> nat
    decreases k,
{
    if k == 0 {
        1
    } else {
        2 * two_to((k - 1) as nat)
    }
}

/// The number of batches: the volume of table 0 over each table's share of the
/// memory ceiling, and at least one.
pub open spec fn iterations_for(k: nat, memory_ceiling: nat, table_count: nat) -> nat {
    let q = (two_to(k) * RECORD_SIZE) as int / (memory_ceiling / table_count) as int;
    if q <= 0 {
        1
    } else {
        q as nat
    }
}

/// How the generation of table 0 is split into batches.
#[derive(Clone, Copy, Debug, PartialEq, Eq)]
pub struct BatchPlan {
    /// Number of batches.
    pub total_iterations: u64,
    /// Table-0 records generated in each batch.
    pub num_entries: u64,
}

/// A configuration the pipeline refuses before it starts.
#[derive(Clone, Copy, Debug, PartialEq, Eq)]
pub enum ConfigError {
    /// `k` is 0, or larger than the nonce space allows.
    KOutOfRange,
    /// Fewer than two tables leave nothing to collate.
    TooFewTables,
    /// The memory ceiling gives each table no byte at all.
    MemoryTooSmall,
}

/// Configurations that the pipeline accepts.
pub open spec fn config_ok(k: u32, memory_ceiling: u64, table_count: u64) -> bool {
    &&& 1 <= k <= 32
    &&& table_count >= 2
    &&& memory_ceiling / table_count > 0
}

fn power_of_two(k: u32) -> (r: u64)
    requires
        k <= 32,
    ensures
        r == two_to(k as nat),
        r <= 4294967296,
{
    let mut r: u64 = 1;
    let mut i: u32 = 0;
    while i < k
        invariant
            i <= k <= 32,
            r == two_to(i as nat),
        decreases k - i,
    {
        proof {
            lemma_two_to_bound((i + 1) as nat);
        }
        r = r * 2;
        i = i + 1;
    }
    proof {
        lemma_two_to_bound(i as nat);
    }
    r
}

proof fn lemma_two_to_monotone(a: nat, b: nat)
    requires
        a <= b,
    ensures
        1 <= two_to(a) <= two_to(b),
    decreases b,
{
    if b > a {
        lemma_two_to_monotone(a, (b - 1) as nat);
    } else if a > 0 {
        lemma_two_to_monotone((a - 1) as nat, (a - 1) as nat);
    }
}

proof fn lemma_two_to_bound(k: nat)
    requires
        k <= 32,
    ensures
        1 <= two_to(k) <= 4294967296,
{
    lemma_two_to_monotone(k, 32);
    reveal_with_fuel(two_to, 33);
    assert(two_to(32) == 4294967296);
}

/// Splits table 0's `2^k` records into batches so that one batch of every table
/// fits the memory ceiling: `total_iterations = 2^k * 36 / (memory_ceiling /
/// table_count)`, raised to 1 when it is 0, and `num_entries = 2^k /
/// total_iterations`.
pub fn plan_batches(k: u32, memory_ceiling: u64, table_count: u64) -> (r: Result<BatchPlan, ConfigError>)
    ensures
        match r {
            Ok(plan) => {
                &&& config_ok(k, memory_ceiling, table_count)
                &&& plan.total_iterations == iterations_for(k as nat, memory_ceiling as nat, table_count as nat)
                &&& plan.num_entries == two_to(k as nat) / plan.total_iterations as nat
            },
            Err(e) => {
                &&& !config_ok(k, memory_ceiling, table_count)
                &&& (e == ConfigError::KOutOfRange <==> !(1 <= k <= 32))
                &&& (e == ConfigError::TooFewTables <==> (1 <= k <= 32 && table_count < 2))
                &&& (e == ConfigError::MemoryTooSmall <==> (1 <= k <= 32 && table_count >= 2
                    && memory_ceiling / table_count == 0))
            },
        },
{
    if k < 1 || k > MAX_K {
        return Err(ConfigError::KOutOfRange);
    }
    if table_count < 2 {
        return Err(ConfigError::TooFewTables);
    }
    let share: u64 = memory_ceiling / table_count;
    if share == 0 {
        return Err(ConfigError::MemoryTooSmall);
    }
    let entries: u64 = power_of_two(k);
    let total_size: u64 = entries * RECORD_SIZE;
    let mut total_iterations: u64 = total_size / share;
    if total_iterations == 0 {
        total_iterations = 1;
    }
    Ok(BatchPlan { total_iterations, num_entries: entries / total_iterations })
}

/// Every batch of a plan draws its nonces from the 32-bit nonce space:
/// `total_iterations * num_entries <= 2^k <= 2^32`.
pub proof fn lemma_batches_fit(k: u32, memory_ceiling: u64, table_count: u64)
    requires
        config_ok(k, memory_ceiling, table_count),
    ensures
        ({
            let t = iterations_for(k as nat, memory_ceiling as nat, table_count as nat);
            &&& t >= 1
            &&& t * (two_to(k as nat) / t) <= two_to(k as nat)
            &&& two_to(k as nat) <= 4294967296
        }),
{
    let t = iterations_for(k as nat, memory_ceiling as nat, table_count as nat);
    let n = two_to(k as nat);
    lemma_two_to_bound(k as nat);
    assert(t * (n / t) <= n) by (nonlinear_arith)
        requires
            t >= 1,
    ;
}

} // verus!
