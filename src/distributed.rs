//! Rank arithmetic for rank-parallel modules: the process's place in the
//! cluster, data partitioning, work distribution, and the left fold that a
//! reduction's root applies.

use vstd::prelude::*;

verus! {

/// This process's rank and the size of the world communicator.
#[derive(Debug, Clone, Copy, PartialEq, Eq, Structural)]
pub struct MpiUniverse {
    rank: i32,
    size: i32,
}

impl MpiUniverse {
    pub closed spec fn rank_spec(&self) -> i32 {
        self.rank
    }

    pub closed spec fn size_spec(&self) -> i32 {
        self.size
    }

    /// A universe as the transport reports it; `None` unless
    /// `0 <= rank < size`.
    pub fn new(rank: i32, size: i32) -> (r: Option<Self>)
        ensures
            r is Some <==> 0 <= rank < size,
            r matches Some(u) ==> u.rank_spec() == rank && u.size_spec() == size,
    {
        if 0 <= rank && rank < size {
            Some(MpiUniverse { rank, size })
        } else {
            None
        }
    }

    /// A single-process world: rank 0 of 1.
    pub fn single() -> (r: Self)
        ensures
            r.rank_spec() == 0 && r.size_spec() == 1,
    {
        MpiUniverse { rank: 0, size: 1 }
    }

    pub fn rank(&self) -> (r: i32)
        ensures
            r == self.rank_spec(),
    {
        self.rank
    }

    pub fn size(&self) -> (r: i32)
        ensures
            r == self.size_spec(),
    {
        self.size
    }

    /// The world communicator, described by this universe.
    pub fn world(&self) -> (r: &Self)
        ensures
            *r == *self,
    {
        self
    }
}

/// Rank and size of the cluster transport that a router sends through.
#[derive(Debug, Clone, Copy, PartialEq, Eq, Structural)]
pub struct MpiMessageChannel {
    rank: i32,
    size: i32,
}

impl MpiMessageChannel {
    pub closed spec fn rank_spec(&self) -> i32 {
        self.rank
    }

    pub closed spec fn size_spec(&self) -> i32 {
        self.size
    }

    /// A channel on the universe's world communicator.
    pub fn new(universe: &MpiUniverse) -> (r: Self)
        ensures
            r.rank_spec() == universe.rank_spec() && r.size_spec() == universe.size_spec(),
    {
        MpiMessageChannel { rank: universe.rank, size: universe.size }
    }

    pub fn rank(&self) -> (r: i32)
        ensures
            r == self.rank_spec(),
    {
        self.rank
    }

    pub fn size(&self) -> (r: i32)
        ensures
            r == self.size_spec(),
    {
        self.size
    }

    /// The ranks a broadcast is sent to: every rank but this one.
    pub fn broadcast_targets(&self) -> (r: Vec<i32>)
        requires
            0 <= self.rank_spec(),
        ensures
            forall|k: int| 0 <= k < r@.len() ==> 0 <= #[trigger] r@[k] < self.size_spec() && r@[k] != self.rank_spec(),
            forall|x: i32| 0 <= x < self.size_spec() && x != self.rank_spec() ==> r@.contains(x),
            r@.len() == if self.size_spec() > self.rank_spec() { self.size_spec() - 1 } else if self.size_spec() > 0 { self.size_spec() as int } else { 0 },
    {
        let mut out: Vec<i32> = Vec::new();
        let mut x: i32 = 0;
        while x < self.size
            invariant
                0 <= x <= self.size || self.size <= 0,
                x >= 0,
                self.size <= 0 ==> x == 0,
                0 <= self.rank,
                forall|k: int| 0 <= k < out@.len() ==> 0 <= #[trigger] out@[k] < x && out@[k] != self.rank,
                forall|y: i32| 0 <= y < x && y != self.rank ==> out@.contains(y),
                out@.len() == if x > self.rank { x - 1 } else { x as int },
            decreases self.size - x,
        {
            if x != self.rank {
                let ghost prev = out@;
                out.push(x);
                proof {
                    assert forall|y: i32| 0 <= y < x + 1 && y != self.rank implies out@.contains(y) by {
                        if y == x {
                            assert(out@[prev.len() as int] == x);
                        } else {
                            assert(prev.contains(y));
                            let w = choose|w: int| 0 <= w < prev.len() && prev[w] == y;
                            assert(out@[w] == y);
                        }
                    }
                }
            }
            x += 1;
        }
        out
    }
}

/// Start of rank `rank`'s block when `total` items are split over `size`
/// ranks, the first `total % size` ranks taking one extra item.
pub open spec fn block_start(total: int, rank: int, size: int) -> int {
    rank * (total / size) + if rank < total % size { rank } else { total % size }
}

/// Length of rank `rank`'s block.
pub open spec fn block_len(total: int, rank: int, size: int) -> int {
    total / size + if rank < total % size { 1int } else { 0int }
}

/// Splitting of index ranges over ranks.
pub struct DataPartitioner;

impl DataPartitioner {
    /// `(start, length)` of rank `rank`'s share of `total_size` items.
    pub fn partition_1d(total_size: usize, rank: i32, size: i32) -> (r: (usize, usize))
        requires
            0 <= rank < size,
        ensures
            r.0 == block_start(total_size as int, rank as int, size as int),
            r.1 == block_len(total_size as int, rank as int, size as int),
            r.0 + r.1 <= total_size,
    {
        let s = size as usize;
        let k = rank as usize;
        let base = total_size / s;
        let rem = total_size % s;
        proof {
            assert(base * s + rem == total_size) by (nonlinear_arith)
                requires base == total_size / s, rem == total_size % s, s > 0;
            assert(k * base + base <= s * base) by (nonlinear_arith)
                requires k < s, base >= 0;
            assert(k * base <= total_size) by (nonlinear_arith)
                requires k < s, base * s + rem == total_size, rem >= 0, k * base + base <= s * base;
        }
        let extra_before = if k < rem { k } else { rem };
        let start = k * base + extra_before;
        let extra = if k < rem { 1 } else { 0 };
        proof {
            assert(k * base + extra_before + base + extra <= total_size) by (nonlinear_arith)
                requires
                    k < s, rem < s, base * s + rem == total_size, k * base + base <= s * base,
                    extra_before <= rem, extra_before <= k, extra <= 1,
                    (extra == 1 ==> k < rem && extra_before == k),
                    (extra == 0 ==> extra_before == rem),
                    base >= 0;
        }
        (start, base + extra)
    }

    /// Row block of rank `rank` over `total_rows`, with every column:
    /// `((row_start, 0), (rows, total_cols))`.
    pub fn partition_2d(total_rows: usize, total_cols: usize, rank: i32, size: i32) -> (r: ((usize, usize), (usize, usize)))
        requires
            0 <= rank < size,
        ensures
            r.0.0 == block_start(total_rows as int, rank as int, size as int),
            r.0.1 == 0,
            r.1.0 == block_len(total_rows as int, rank as int, size as int),
            r.1.1 == total_cols,
    {
        let (row_start, local_rows) = Self::partition_1d(total_rows, rank, size);
        ((row_start, 0), (local_rows, total_cols))
    }

    /// Global index of a local index.
    pub fn global_index(local_idx: usize, start_offset: usize) -> (r: usize)
        requires
            local_idx + start_offset <= usize::MAX,
        ensures
            r == local_idx + start_offset,
    {
        local_idx + start_offset
    }

    /// Whether a local index lies within the local block.
    pub fn owns_index(local_idx: usize, local_size: usize) -> (r: bool)
        ensures
            r == (local_idx < local_size),
    {
        local_idx < local_size
    }
}

/// Distribution of work items over workers.
pub struct LoadBalancer;

impl LoadBalancer {
    /// Consecutive `(offset, size)` shares of `total_work` for each of
    /// `num_workers` workers, the first `total_work % num_workers` taking
    /// one extra item. No worker gets anything when there are none.
    pub fn balance_workload(total_work: usize, num_workers: i32) -> (r: Vec<(usize, usize)>)
        ensures
            num_workers <= 0 ==> r@.len() == 0,
            num_workers > 0 ==> r@.len() == num_workers,
            forall|i: int| 0 <= i < r@.len() ==> (#[trigger] r@[i]).0 == block_start(total_work as int, i, num_workers as int)
                && r@[i].1 == block_len(total_work as int, i, num_workers as int),
    {
        let mut out: Vec<(usize, usize)> = Vec::new();
        if num_workers <= 0 {
            return out;
        }
        let n = num_workers as usize;
        let mut i: i32 = 0;
        while i < num_workers
            invariant
                0 <= i <= num_workers,
                n == num_workers as usize,
                out@.len() == i,
                forall|j: int| 0 <= j < i ==> (#[trigger] out@[j]).0 == block_start(total_work as int, j, num_workers as int)
                    && out@[j].1 == block_len(total_work as int, j, num_workers as int),
            decreases num_workers - i,
        {
            let share = DataPartitioner::partition_1d(total_work, i, num_workers);
            out.push(share);
            i += 1;
        }
        out
    }
}

/// Sum of the values, as a reduction with `+` yields.
pub open spec fn sum_i64(s: Seq<i64>) -> int
    decreases s.len(),
{
    if s.len() == 0 {
        0
    } else {
        sum_i64(s.drop_last()) + s.last()
    }
}

/// The root's result of a sum reduction: its own value plus those received,
/// in rank order; `None` on overflow.
pub fn reduce_sum(local: i64, received: &Vec<i64>) -> (r: Option<i64>)
    ensures
        r matches Some(v) ==> v == local + sum_i64(received@),
        (forall|k: int| 0 <= k <= received@.len()
            ==> i64::MIN <= #[trigger] (local + sum_i64(received@.take(k))) <= i64::MAX) ==> r is Some,
{
    let mut acc: i64 = local;
    let n = received.len();
    let mut i: usize = 0;
    while i < n
        invariant
            n == received@.len(),
            0 <= i <= n,
            acc == local + sum_i64(received@.take(i as int)),
        decreases n - i,
    {
        assert(received@.take(i + 1).drop_last() =~= received@.take(i as int));
        match acc.checked_add(received[i]) {
            Some(v) => acc = v,
            None => {
                assert(!(i64::MIN <= local + sum_i64(received@.take(i + 1)) <= i64::MAX));
                return None;
            },
        }
        i += 1;
    }
    assert(received@.take(n as int) =~= received@);
    Some(acc)
}

/// `steps` is the chain of partial results of folding `received` into
/// `local` from the left under `op`: it starts at `local` and each step
/// applies `op` to the previous result and the next received value.
pub open spec fn is_left_fold<F: Fn(i64, i64) -> i64>(local: i64, received: Seq<i64>, op: F, steps: Seq<i64>) -> bool {
    &&& steps.len() == received.len() + 1
    &&& steps[0] == local
    &&& forall|i: int| 0 <= i < received.len() ==> op.ensures((steps[i], #[trigger] received[i]), steps[i + 1])
}

/// The root's side of a reduction: folds the values received from the
/// other ranks, in rank order, into its own value, from the left.
pub fn reduce_fold<F: Fn(i64, i64) -> i64>(local: i64, received: &Vec<i64>, op: F) -> (r: i64)
    requires
        forall|a: i64, b: i64| op.requires((a, b)),
    ensures
        exists|steps: Seq<i64>| is_left_fold(local, received@, op, steps) && steps.last() == r,
{
    let mut acc = local;
    let ghost mut steps: Seq<i64> = seq![local];
    let n = received.len();
    let mut i: usize = 0;
    while i < n
        invariant
            n == received@.len(),
            0 <= i <= n,
            forall|a: i64, b: i64| op.requires((a, b)),
            steps.len() == i + 1,
            steps[0] == local,
            steps.last() == acc,
            forall|k: int| 0 <= k < i ==> op.ensures((steps[k], #[trigger] received@[k]), steps[k + 1]),
        decreases n - i,
    {
        let next = op(acc, received[i]);
        proof {
            let prev = steps;
            steps = steps.push(next);
            assert forall|k: int| 0 <= k < i + 1 implies op.ensures((steps[k], #[trigger] received@[k]), steps[k + 1]) by {
                if k < i {
                    assert(steps[k] == prev[k] && steps[k + 1] == prev[k + 1]);
                }
            }
        }
        acc = next;
        i += 1;
    }
    assert(is_left_fold(local, received@, op, steps));
    acc
}

} // verus!
