use vstd::prelude::*;

use crate::consts::RECORD_SIZE;
use crate::stats::Stats;

verus! {

/// Number of block sizes tried.
pub const BLOCK_SIZE_COUNT: usize = 19;

/// The `k`-th block size tried: 512 bytes doubled `k` times, so the sizes run
/// from 512 bytes to 128 MiB.
pub open spec fn candidate(k: nat) -> nat
    decreases k,
{
    if k == 0 {
        512
    } else {
        2 * candidate((k - 1) as nat)
    }
}

proof fn lemma_candidate_order(k: nat)
    ensures
        512 <= candidate(k),
        forall|j: nat| j < k ==> #[trigger] candidate(j) < candidate(k),
    decreases k,
{
    if k > 0 {
        lemma_candidate_order((k - 1) as nat);
    }
}

proof fn lemma_candidate_bounds(k: nat)
    ensures
        512 <= candidate(k),
        k < BLOCK_SIZE_COUNT ==> candidate(k) <= 134217728,
        forall|j: nat| j < k ==> #[trigger] candidate(j) < candidate(k),
{
    lemma_candidate_order(k);
    lemma_candidate_order(18);
    reveal_with_fuel(candidate, 19);
    assert(candidate(18) == 134217728);
}

/// Bytes lost to padding when every file is rounded up to whole blocks of
/// `b` bytes, counting a full block for a file whose size is a multiple of `b`.
pub open spec fn padding_loss(sizes: Seq<u64>, b: nat) -> int
    decreases sizes.len(),
{
    if sizes.len() == 0 || b == 0 {
        0
    } else {
        padding_loss(sizes.drop_last(), b) + (b - sizes.last() as nat % b)
    }
}

/// Bytes of block records: `RECORD_SIZE` per block, as
/// `(size + b - 1) * RECORD_SIZE / b` per file, rounded down.
pub open spec fn record_table_cost(sizes: Seq<u64>, b: nat) -> int
    decreases sizes.len(),
{
    if sizes.len() == 0 || b == 0 {
        0
    } else {
        record_table_cost(sizes.drop_last(), b) + (sizes.last() + b - 1) * RECORD_SIZE / (b as int)
    }
}

/// Bytes of the file index: the sum of the path lengths.
pub open spec fn index_table_cost(path_lens: Seq<usize>) -> int
    decreases path_lens.len(),
{
    if path_lens.len() == 0 {
        0
    } else {
        index_table_cost(path_lens.drop_last()) + path_lens.last()
    }
}

/// What a block size of `b` bytes costs for files of the given sizes and
/// path lengths.
pub open spec fn cost(sizes: Seq<u64>, path_lens: Seq<usize>, b: nat) -> int {
    padding_loss(sizes, b) + record_table_cost(sizes, b) + index_table_cost(path_lens)
}

/// What a block size of `b` bytes costs for a file population.
pub open spec fn total_cost(stats: Stats, b: nat) -> int {
    cost(stats.file_sizes@, stats.path_lens@, b)
}

/// Chooses the block size for a whole backup from its file population.
#[derive(Debug)]
pub struct BlockSize {
    stats: Stats,
}

/// The two costs that depend on the block size, added up.
fn block_cost(sizes: &Vec<u64>, b: u64) -> (r: u128)
    requires
        512 <= b <= 134217728,
    ensures
        r == padding_loss(sizes@, b as nat) + record_table_cost(sizes@, b as nat),
{
    let mut loss: u128 = 0;
    let mut records: u128 = 0;
    let mut i: usize = 0;
    assert(sizes@.len() == sizes.len());
    while i < sizes.len()
        invariant
            512 <= b <= 134217728,
            i <= sizes@.len(),
            sizes@.len() <= usize::MAX,
            loss == padding_loss(sizes@.subrange(0, i as int), b as nat),
            records == record_table_cost(sizes@.subrange(0, i as int), b as nat),
            loss <= i * 134217728,
            records <= i * 0x8000_0000_0000_0000u128,
        decreases sizes@.len() - i,
    {
        proof {
            assert(sizes@.subrange(0, i + 1).drop_last() =~= sizes@.subrange(0, i as int));
        }
        let size = sizes[i];
        let l: u128 = (b - size % b) as u128;
        let x: u128 = (size as u128 + b as u128 - 1) * (RECORD_SIZE as u128);
        let rec: u128 = x / (b as u128);
        proof {
            vstd::arithmetic::div_mod::lemma_div_is_ordered_by_denominator(x as int, 512, b as int);
            assert(x / 512 <= 0x8000_0000_0000_0000u128) by (nonlinear_arith)
                requires
                    x == (size as u128 + b as u128 - 1) * 64,
                    size <= u64::MAX,
                    b <= 134217728,
            ;
        }
        loss = loss + l;
        records = records + rec;
        i += 1;
    }
    assert(sizes@.subrange(0, i as int) =~= sizes@);
    loss + records
}

impl BlockSize {
    pub closed spec fn spec_stats(&self) -> Stats {
        self.stats
    }

    pub fn new(stats: Stats) -> (r: BlockSize)
        ensures
            r.spec_stats() == stats,
    {
        BlockSize { stats }
    }

    /// The candidate block size with the smallest total cost; among equal
    /// costs, the smallest block size.
    pub fn block_size(&self) -> (r: u64)
        ensures
            exists|k: nat| k < BLOCK_SIZE_COUNT && r == candidate(k),
            forall|k: nat|
                k < BLOCK_SIZE_COUNT ==> total_cost(self.spec_stats(), r as nat) <= total_cost(
                    self.spec_stats(),
                    #[trigger] candidate(k),
                ),
            forall|k: nat|
                k < BLOCK_SIZE_COUNT && #[trigger] candidate(k) < r ==> total_cost(
                    self.spec_stats(),
                    r as nat,
                ) < total_cost(self.spec_stats(), candidate(k)),
    {
        let sizes = &self.stats.file_sizes;
        proof {
            lemma_candidate_bounds(0);
        }
        let mut best: u64 = 512;
        let mut best_cost: u128 = block_cost(sizes, 512);
        let ghost best_k: nat = 0;
        let mut b: u64 = 512;
        let mut k: usize = 1;
        while k < BLOCK_SIZE_COUNT
            invariant
                1 <= k <= BLOCK_SIZE_COUNT,
                b == candidate((k - 1) as nat),
                best_k < k,
                best == candidate(best_k),
                best_cost == padding_loss(sizes@, best as nat) + record_table_cost(sizes@, best as nat),
                sizes == &self.stats.file_sizes,
                forall|j: nat|
                    j < k ==> total_cost(self.stats, best as nat) <= total_cost(
                        self.stats,
                        #[trigger] candidate(j),
                    ),
                forall|j: nat|
                    j < k && #[trigger] candidate(j) < best ==> total_cost(self.stats, best as nat)
                        < total_cost(self.stats, candidate(j)),
            decreases BLOCK_SIZE_COUNT - k,
        {
            proof {
                lemma_candidate_bounds(k as nat);
                lemma_candidate_bounds((k - 1) as nat);
            }
            b = b * 2;
            let cost = block_cost(sizes, b);
            if cost < best_cost {
                best = b;
                best_cost = cost;
                proof {
                    best_k = k as nat;
                }
            }
            proof {
                assert forall|j: nat| j < k + 1 && #[trigger] candidate(j) < best implies total_cost(
                    self.stats,
                    best as nat,
                ) < total_cost(self.stats, candidate(j)) by {
                    lemma_candidate_bounds(j);
                    if j < k {
                        lemma_candidate_bounds(k as nat);
                    }
                }
            }
            k += 1;
        }
        best
    }
}

/// The size of the record and index tables for block size `block_size`.
pub fn estimate_size_of_tables(block_size: u64, path_lens: &[usize], sizes: &[u64]) -> (r: u128)
    requires
        block_size > 0,
        record_table_cost(sizes@, block_size as nat) + index_table_cost(path_lens@) <= u128::MAX,
    ensures
        r == record_table_cost(sizes@, block_size as nat) + index_table_cost(path_lens@),
{
    let mut records: u128 = 0;
    let mut i: usize = 0;
    proof {
        lemma_costs_grow(sizes@, path_lens@, block_size as nat, sizes@.len() as int, path_lens@.len() as int);
    }
    while i < sizes.len()
        invariant
            block_size > 0,
            i <= sizes@.len(),
            records == record_table_cost(sizes@.subrange(0, i as int), block_size as nat),
            record_table_cost(sizes@, block_size as nat) + index_table_cost(path_lens@) <= u128::MAX,
            forall|m: int| 0 <= m <= sizes@.len() ==> #[trigger] record_table_cost(sizes@.subrange(0, m), block_size as nat) <= record_table_cost(sizes@, block_size as nat),
            index_table_cost(path_lens@) >= 0,
        decreases sizes@.len() - i,
    {
        proof {
            assert(sizes@.subrange(0, i + 1).drop_last() =~= sizes@.subrange(0, i as int));
            assert(record_table_cost(sizes@.subrange(0, i + 1), block_size as nat) <= record_table_cost(sizes@, block_size as nat));
        }
        let size = sizes[i];
        let x: u128 = (size as u128 + block_size as u128 - 1) * (RECORD_SIZE as u128);
        records = records + x / (block_size as u128);
        i += 1;
    }
    assert(sizes@.subrange(0, i as int) =~= sizes@);
    let mut index: u128 = 0;
    let mut j: usize = 0;
    while j < path_lens.len()
        invariant
            j <= path_lens@.len(),
            index == index_table_cost(path_lens@.subrange(0, j as int)),
            records == record_table_cost(sizes@, block_size as nat),
            records + index_table_cost(path_lens@) <= u128::MAX,
            forall|m: int| 0 <= m <= path_lens@.len() ==> #[trigger] index_table_cost(path_lens@.subrange(0, m)) <= index_table_cost(path_lens@),
            records >= 0,
        decreases path_lens@.len() - j,
    {
        proof {
            assert(path_lens@.subrange(0, j + 1).drop_last() =~= path_lens@.subrange(0, j as int));
            assert(index_table_cost(path_lens@.subrange(0, j + 1)) <= index_table_cost(path_lens@));
        }
        index = index + path_lens[j] as u128;
        j += 1;
    }
    assert(path_lens@.subrange(0, j as int) =~= path_lens@);
    records + index
}

proof fn lemma_costs_grow(sizes: Seq<u64>, path_lens: Seq<usize>, b: nat, n: int, m: int)
    requires
        b > 0,
        0 <= n <= sizes.len(),
        0 <= m <= path_lens.len(),
    ensures
        forall|i: int| 0 <= i <= sizes.len() ==> #[trigger] record_table_cost(sizes.subrange(0, i), b) <= record_table_cost(sizes, b),
        forall|i: int| 0 <= i <= path_lens.len() ==> #[trigger] index_table_cost(path_lens.subrange(0, i)) <= index_table_cost(path_lens),
        index_table_cost(path_lens) >= 0,
        record_table_cost(sizes, b) >= 0,
    decreases sizes.len() + path_lens.len(),
{
    if sizes.len() > 0 {
        lemma_costs_grow(sizes.drop_last(), path_lens, b, 0, 0);
        assert forall|i: int| 0 <= i <= sizes.len() implies #[trigger] record_table_cost(sizes.subrange(0, i), b) <= record_table_cost(sizes, b) by {
            if i < sizes.len() {
                assert(sizes.drop_last().subrange(0, i) =~= sizes.subrange(0, i));
                assert(record_table_cost(sizes.drop_last().subrange(0, i), b) <= record_table_cost(sizes.drop_last(), b));
                assert((sizes.last() + b - 1) * RECORD_SIZE / (b as int) >= 0) by (nonlinear_arith)
                    requires b > 0, sizes.last() >= 0;
            } else {
                assert(sizes.subrange(0, i) =~= sizes);
            }
        }
    } else {
        assert forall|i: int| 0 <= i <= sizes.len() implies #[trigger] record_table_cost(sizes.subrange(0, i), b) <= record_table_cost(sizes, b) by {
            assert(sizes.subrange(0, i) =~= sizes);
        }
        if path_lens.len() > 0 {
            lemma_costs_grow(sizes, path_lens.drop_last(), b, 0, 0);
            assert forall|i: int| 0 <= i <= path_lens.len() implies #[trigger] index_table_cost(path_lens.subrange(0, i)) <= index_table_cost(path_lens) by {
                if i < path_lens.len() {
                    assert(path_lens.drop_last().subrange(0, i) =~= path_lens.subrange(0, i));
                } else {
                    assert(path_lens.subrange(0, i) =~= path_lens);
                }
            }
        } else {
            assert forall|i: int| 0 <= i <= path_lens.len() implies #[trigger] index_table_cost(path_lens.subrange(0, i)) <= index_table_cost(path_lens) by {
                assert(path_lens.subrange(0, i) =~= path_lens);
            }
        }
    }
}

} // verus!
