use matmul::threading::{choose_thread_count, partition_rows, plan_workers, RowRange};
use matmul::tiling::{BlockingParams, TileShape};

#[test]
fn test_adaptive_threading() {
    // Small matrix should use 1 thread (256×256 = 33M FLOPs)
    assert_eq!(choose_thread_count(256, 256, 256, 4), 1);

    // Medium matrix should use 2 threads (450×450 = 182M FLOPs)
    assert_eq!(choose_thread_count(450, 450, 450, 4), 2);

    // Large matrix should use all threads (1024×1024 = 2.1B FLOPs)
    assert_eq!(choose_thread_count(1024, 1024, 1024, 4), 4);

    // Very small rows should limit threads (only 32 rows = can't use 4 threads)
    assert_eq!(choose_thread_count(32, 1024, 1024, 4), 1);
}

#[test]
fn thread_count_thresholds_are_exclusive() {
    // 2 * 50 * 1000 * 1000 = 100M operations: no longer below the first threshold.
    assert_eq!(choose_thread_count(1000, 50, 1000, 8), 2);
    // 2 * 1000 * 49_999 * 1 < 100M.
    assert_eq!(choose_thread_count(1000, 49_999, 1, 8), 1);
    // 2 * 1000 * 150 * 1000 = 300M operations: the caller's maximum, capped by rows.
    assert_eq!(choose_thread_count(1000, 150, 1000, 8), 8);
    assert_eq!(choose_thread_count(1000, 150, 1000, 32), 15);
}

#[test]
fn thread_count_never_exceeds_max() {
    assert_eq!(choose_thread_count(450, 450, 450, 1), 1);
    assert_eq!(choose_thread_count(4096, 4096, 4096, 3), 3);
    assert_eq!(choose_thread_count(0, 0, 0, 4), 1);
}

#[test]
fn thread_count_huge_dimensions_do_not_overflow() {
    assert_eq!(choose_thread_count(usize::MAX, usize::MAX, usize::MAX, 6), 6);
    assert_eq!(choose_thread_count(usize::MAX, usize::MAX, 0, 6), 1);
}

#[test]
fn partition_folds_remainder_into_last_range() {
    let r = partition_rows(200, 3);
    assert_eq!(
        r,
        vec![
            RowRange { start: 0, end: 66 },
            RowRange { start: 66, end: 132 },
            RowRange { start: 132, end: 200 },
        ]
    );
}

#[test]
fn partition_single_and_fewer_rows_than_workers() {
    assert_eq!(partition_rows(10, 1), vec![RowRange { start: 0, end: 10 }]);
    let r = partition_rows(2, 4);
    assert_eq!(r.len(), 4);
    assert_eq!(r[3], RowRange { start: 0, end: 2 });
    for i in 0..3 {
        assert_eq!(r[i].start, r[i].end);
    }
}

#[test]
fn partition_is_contiguous_and_exhaustive() {
    for m in [0usize, 1, 63, 64, 255, 256, 1000] {
        for t in 1..=8usize {
            let r = partition_rows(m, t);
            assert_eq!(r.len(), t);
            assert_eq!(r[0].start, 0);
            assert_eq!(r[t - 1].end, m);
            for i in 0..t - 1 {
                assert_eq!(r[i].end, r[i + 1].start);
            }
        }
    }
}

#[test]
fn worker_plans_follow_partition() {
    let plans = plan_workers(1024, 1024, 1024, 4, TileShape::Fat, BlockingParams::tuned());
    assert_eq!(plans.len(), 4);
    let starts: Vec<usize> = plans.iter().map(|p| p.row_start).collect();
    let ends: Vec<usize> = plans.iter().map(|p| p.row_end).collect();
    assert_eq!(starts, vec![0, 256, 512, 768]);
    assert_eq!(ends, vec![256, 512, 768, 1024]);

    let small = plan_workers(2, 2, 3, 4, TileShape::Wide, BlockingParams::tuned());
    assert_eq!(small.len(), 1);
    assert_eq!((small[0].row_start, small[0].row_end), (0, 2));
}
