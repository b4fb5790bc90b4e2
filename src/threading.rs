//! How many workers a multiplication gets, and which rows of C each one owns.
use crate::plan::{lemma_spec_new_wf, GemmPlan};
use crate::tiling::{BlockingParams, TileShape};
use vstd::prelude::*;

verus! {

/// Below this many floating-point operations one worker is used.
pub const SINGLE_THREAD_FLOPS: u128 = 100_000_000;

/// Below this many floating-point operations at most two workers are used.
pub const TWO_THREAD_FLOPS: u128 = 300_000_000;

/// Each worker is given at least this many rows.
pub const MIN_ROWS_PER_THREAD: usize = 64;

/// Operations in one full `m x k` by `k x n` multiply: a multiply and an add
/// for each of the `m * n * k` products.
pub open spec fn flop_count(m: int, n: int, k: int) -> int {
    2 * m * n * k
}

/// The worker count that the operation count alone asks for.
pub open spec fn threads_for_work(m: int, n: int, k: int, max_threads: int) -> int {
    if flop_count(m, n, k) < SINGLE_THREAD_FLOPS {
        1
    } else if flop_count(m, n, k) < TWO_THREAD_FLOPS {
        2
    } else {
        max_threads
    }
}

/// The worker count that keeps at least `MIN_ROWS_PER_THREAD` rows per worker.
pub open spec fn threads_for_rows(m: int) -> int {
    if m / (MIN_ROWS_PER_THREAD as int) >= 1 {
        m / (MIN_ROWS_PER_THREAD as int)
    } else {
        1
    }
}

pub open spec fn min_int(a: int, b: int) -> int {
    if a <= b {
        a
    } else {
        b
    }
}

/// The effective worker count: the least of the work-derived count, the
/// row-derived cap and the caller's maximum.
pub open spec fn thread_count(m: int, n: int, k: int, max_threads: int) -> int {
    min_int(min_int(threads_for_work(m, n, k, max_threads), threads_for_rows(m)), max_threads)
}

/// Decides `2 * m * n * k < limit` without overflow.
fn flops_below(m: usize, n: usize, k: usize, limit: u128) -> (r: bool)
    requires
        limit <= TWO_THREAD_FLOPS,
    ensures
        r == (flop_count(m as int, n as int, k as int) < limit as int),
{
    if k == 0 {
        assert(flop_count(m as int, n as int, 0) == 0) by (nonlinear_arith);
        return 0 < limit;
    }
    assert((m as int) * (n as int) <= (m as int) * 0xffff_ffff_ffff_ffff) by (nonlinear_arith)
        requires
            0 <= m,
            n <= 0xffff_ffff_ffff_ffff,
    ;
    assert((m as int) * 0xffff_ffff_ffff_ffff <= 0xffff_ffff_ffff_ffff * 0xffff_ffff_ffff_ffff)
        by (nonlinear_arith)
        requires
            0 <= m <= 0xffff_ffff_ffff_ffff,
    ;
    let mn: u128 = (m as u128) * (n as u128);
    if mn >= TWO_THREAD_FLOPS {
        assert(flop_count(m as int, n as int, k as int) >= 2 * (mn as int)) by (nonlinear_arith)
            requires
                mn as int == m as int * n as int,
                k >= 1,
        ;
        return false;
    }
    assert((mn as int) * (k as int) < 0x1_0000_0000_0000_0000_0000_0000_0000) by (nonlinear_arith)
        requires
            mn < TWO_THREAD_FLOPS,
            k <= 0xffff_ffff_ffff_ffff,
    ;
    let mnk: u128 = mn * (k as u128);
    assert(flop_count(m as int, n as int, k as int) == 2 * (mnk as int)) by (nonlinear_arith)
        requires
            mn as int == m as int * n as int,
            mnk as int == mn as int * k as int,
    ;
    mnk < limit / 2 || (mnk == limit / 2 && limit % 2 == 1)
}

/// Picks how many workers a multiplication of an `m x k` by a `k x n` matrix
/// gets: one below 100 million operations, two below 300 million, otherwise
/// `max_threads`; never more than one worker per 64 rows (but at least one)
/// and never more than `max_threads`.
pub fn choose_thread_count(m: usize, n: usize, k: usize, max_threads: usize) -> (r: usize)
    ensures
        r as int == thread_count(m as int, n as int, k as int, max_threads as int),
        r <= max_threads,
        max_threads >= 1 ==> r >= 1,
{
    let optimal: usize = if flops_below(m, n, k, SINGLE_THREAD_FLOPS) {
        1
    } else if flops_below(m, n, k, TWO_THREAD_FLOPS) {
        2
    } else {
        max_threads
    };
    let by_rows: usize = if m / MIN_ROWS_PER_THREAD >= 1 {
        m / MIN_ROWS_PER_THREAD
    } else {
        1
    };
    let capped: usize = if optimal <= by_rows {
        optimal
    } else {
        by_rows
    };
    if capped <= max_threads {
        capped
    } else {
        max_threads
    }
}

/// A half-open range `[start, end)` of rows of C owned by one worker.
#[derive(Clone, Copy, Debug, PartialEq, Eq, Structural)]
pub struct RowRange {
    pub start: usize,
    pub end: usize,
}

/// First row of worker `i` when `m` rows go to `threads` workers.
pub open spec fn range_start(m: int, threads: int, i: int) -> int {
    i * (m / threads)
}

/// End of the rows of worker `i`: every worker gets `m / threads` rows and the
/// last one also takes the `m % threads` rows that are left over.
pub open spec fn range_end(m: int, threads: int, i: int) -> int {
    if i == threads - 1 {
        m
    } else {
        (i + 1) * (m / threads)
    }
}

/// The worker that owns `row`.
pub open spec fn range_owner(m: int, threads: int, row: int) -> int {
    if m / threads == 0 || row / (m / threads) >= threads - 1 {
        threads - 1
    } else {
        row / (m / threads)
    }
}

proof fn lemma_range_bounds(m: int, threads: int, i: int)
    requires
        0 <= m,
        1 <= threads,
        0 <= i < threads,
    ensures
        0 <= range_start(m, threads, i) <= range_end(m, threads, i) <= m,
        i + 1 < threads ==> range_end(m, threads, i) == range_start(m, threads, i + 1),
{
    let q = m / threads;
    assert(0 <= q && threads * q <= m) by (nonlinear_arith)
        requires
            0 <= m,
            1 <= threads,
            q == m / threads,
    ;
    assert(0 <= i * q <= (i + 1) * q <= threads * q) by (nonlinear_arith)
        requires
            0 <= q,
            0 <= i < threads,
    ;
}

/// Splits rows `[0, m)` into `threads` contiguous ranges, in order: range `i`
/// is `[i * (m / threads), (i + 1) * (m / threads))`, and the last one runs to
/// `m` so that the rows left over by the division are not dropped.
pub fn partition_rows(m: usize, threads: usize) -> (r: Vec<RowRange>)
    requires
        threads >= 1,
    ensures
        r@.len() == threads,
        forall|i: int|
            0 <= i < threads ==> {
                &&& #[trigger] r@[i].start as int == range_start(m as int, threads as int, i)
                &&& r@[i].end as int == range_end(m as int, threads as int, i)
            },
{
    let per: usize = m / threads;
    let mut r: Vec<RowRange> = Vec::new();
    let mut i: usize = 0;
    while i < threads
        invariant
            threads >= 1,
            per == m / threads,
            i <= threads,
            r@.len() == i,
            forall|i2: int|
                0 <= i2 < i ==> {
                    &&& #[trigger] r@[i2].start as int == range_start(m as int, threads as int, i2)
                    &&& r@[i2].end as int == range_end(m as int, threads as int, i2)
                },
        decreases threads - i,
    {
        proof {
            lemma_range_bounds(m as int, threads as int, i as int);
            if i + 1 < threads {
                lemma_range_bounds(m as int, threads as int, i as int + 1);
            }
        }
        let start: usize = i * per;
        let end: usize = if i == threads - 1 {
            m
        } else {
            (i + 1) * per
        };
        r.push(RowRange { start, end });
        i = i + 1;
    }
    r
}

/// The row partition is exhaustive and non-overlapping: the ranges are
/// contiguous from row 0 to row `m`, and every row of `[0, m)` lies in exactly
/// one of them, the one of worker `range_owner(m, threads, row)`.
pub proof fn lemma_partition_exact_cover(m: int, threads: int, row: int)
    requires
        1 <= threads,
        0 <= row < m,
    ensures
        range_start(m, threads, 0) == 0,
        range_end(m, threads, threads - 1) == m,
        forall|i: int|
            0 <= i < threads - 1 ==> #[trigger] range_end(m, threads, i) == range_start(
                m,
                threads,
                i + 1,
            ),
        0 <= range_owner(m, threads, row) < threads,
        range_start(m, threads, range_owner(m, threads, row)) <= row < range_end(
            m,
            threads,
            range_owner(m, threads, row),
        ),
        forall|i: int|
            0 <= i < threads && #[trigger] range_start(m, threads, i) <= row < range_end(
                m,
                threads,
                i,
            ) ==> i == range_owner(m, threads, row),
{
    let q = m / threads;
    assert forall|i: int| 0 <= i < threads - 1 implies #[trigger] range_end(m, threads, i)
        == range_start(m, threads, i + 1) by {
        lemma_range_bounds(m, threads, i);
    }
    lemma_range_bounds(m, threads, threads - 1);
    let o = range_owner(m, threads, row);
    if q > 0 {
        let d = row / q;
        assert(d * q <= row < (d + 1) * q && 0 <= d) by (nonlinear_arith)
            requires
                q > 0,
                0 <= row,
                d == row / q,
        ;
        if d >= threads - 1 {
            assert((threads - 1) * q <= d * q) by (nonlinear_arith)
                requires
                    d >= threads - 1,
                    q > 0,
            ;
        }
        assert forall|i: int|
            0 <= i < threads && #[trigger] range_start(m, threads, i) <= row < range_end(
                m,
                threads,
                i,
            ) implies i == o by {
            if i < threads - 1 {
                assert(i == d) by (nonlinear_arith)
                    requires
                        i * q <= row < (i + 1) * q,
                        d * q <= row < (d + 1) * q,
                        q > 0,
                ;
                if d >= threads - 1 {
                    assert(false);
                }
            } else {
                assert(d >= threads - 1) by (nonlinear_arith)
                    requires
                        (threads - 1) * q <= row,
                        d * q <= row < (d + 1) * q,
                        q > 0,
                ;
            }
        }
    } else {
        assert forall|i: int|
            0 <= i < threads && #[trigger] range_start(m, threads, i) <= row < range_end(
                m,
                threads,
                i,
            ) implies i == o by {
            assert(i * q == 0) by (nonlinear_arith)
                requires
                    q == 0,
            ;
            assert((i + 1) * q == 0) by (nonlinear_arith)
                requires
                    q == 0,
            ;
        }
    }
}

/// The plan of worker `w` of `threads`: its own rows of C, blocked alone.
pub open spec fn worker_plan(
    m: usize,
    n: usize,
    k: usize,
    threads: int,
    w: int,
    shape: TileShape,
    params: BlockingParams,
) -> GemmPlan {
    GemmPlan::spec_new(
        m,
        n,
        k,
        range_start(m as int, threads, w) as usize,
        range_end(m as int, threads, w) as usize,
        shape,
        params,
    )
}

/// Splits a multiplication across workers: `choose_thread_count` workers, each
/// with the plan of its range of rows from `partition_rows`.
pub fn plan_workers(
    m: usize,
    n: usize,
    k: usize,
    max_threads: usize,
    shape: TileShape,
    params: BlockingParams,
) -> (r: Vec<GemmPlan>)
    requires
        max_threads >= 1,
        params.wf(),
        m * n <= usize::MAX,
        m * k <= usize::MAX,
        k * n <= usize::MAX,
    ensures
        r@.len() == thread_count(m as int, n as int, k as int, max_threads as int),
        forall|w: int|
            0 <= w < r@.len() ==> {
                &&& (#[trigger] r@[w]).wf()
                &&& r@[w] == worker_plan(m, n, k, r@.len() as int, w, shape, params)
            },
{
    let threads = choose_thread_count(m, n, k, max_threads);
    let ranges = partition_rows(m, threads);
    let mut plans: Vec<GemmPlan> = Vec::new();
    let mut w: usize = 0;
    while w < threads
        invariant
            threads >= 1,
            params.wf(),
            m * n <= usize::MAX,
            m * k <= usize::MAX,
            k * n <= usize::MAX,
            ranges@.len() == threads,
            forall|i: int|
                0 <= i < threads ==> {
                    &&& #[trigger] ranges@[i].start as int == range_start(m as int, threads as int, i)
                    &&& ranges@[i].end as int == range_end(m as int, threads as int, i)
                },
            w <= threads,
            plans@.len() == w,
            forall|w2: int|
                0 <= w2 < w ==> {
                    &&& (#[trigger] plans@[w2]).wf()
                    &&& plans@[w2] == worker_plan(m, n, k, threads as int, w2, shape, params)
                },
        decreases threads - w,
    {
        proof {
            lemma_range_bounds(m as int, threads as int, w as int);
        }
        let range = ranges[w];
        let plan = GemmPlan::new(m, n, k, range.start, range.end, shape, params);
        plans.push(plan);
        w = w + 1;
    }
    plans
}

/// Splitting work across workers keeps the result: every row of C is owned by
/// exactly one worker, whose plan is well formed and covers that row (and, by
/// `lemma_exact_cover`, accumulates each of its products exactly once), so
/// that one, two or four workers accumulate the same products as one.
pub proof fn lemma_workers_exact_cover(
    m: usize,
    n: usize,
    k: usize,
    threads: int,
    shape: TileShape,
    params: BlockingParams,
    i: int,
)
    requires
        threads >= 1,
        params.wf(),
        m * n <= usize::MAX,
        m * k <= usize::MAX,
        k * n <= usize::MAX,
        0 <= i < m,
    ensures
        0 <= range_owner(m as int, threads, i) < threads,
        worker_plan(m, n, k, threads, range_owner(m as int, threads, i), shape, params).wf(),
        worker_plan(m, n, k, threads, range_owner(m as int, threads, i), shape, params).row_start
            <= i,
        i < worker_plan(m, n, k, threads, range_owner(m as int, threads, i), shape, params).row_end,
        forall|w: int|
            0 <= w < threads && #[trigger] worker_plan(m, n, k, threads, w, shape, params).row_start
                <= i < worker_plan(m, n, k, threads, w, shape, params).row_end ==> w
                == range_owner(m as int, threads, i),
{
    lemma_partition_exact_cover(m as int, threads, i);
    let o = range_owner(m as int, threads, i);
    lemma_range_bounds(m as int, threads, o);
    lemma_spec_new_wf(
        m,
        n,
        k,
        range_start(m as int, threads, o) as usize,
        range_end(m as int, threads, o) as usize,
        shape,
        params,
    );
    assert forall|w: int|
        0 <= w < threads && #[trigger] worker_plan(m, n, k, threads, w, shape, params).row_start
            <= i < worker_plan(m, n, k, threads, w, shape, params).row_end implies w == o by {
        lemma_range_bounds(m as int, threads, w);
        assert(range_start(m as int, threads, w) <= i < range_end(m as int, threads, w));
    }
}

} // verus!
