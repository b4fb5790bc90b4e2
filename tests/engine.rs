use matmul::matrix::transpose;
use matmul::packing::{pack_a_panel, pack_b_panel};
use matmul::plan::{GemmPlan, Region, Tile};
use matmul::schedule::Step;
use matmul::threading::{partition_rows, plan_workers};
use matmul::tiling::{BlockingParams, TileShape};

const SHAPES: [TileShape; 3] = [TileShape::Small, TileShape::Wide, TileShape::Fat];

/// The textbook i-k-j reference: C += A * B.
fn reference(a: &[f64], b: &[f64], c: &mut [f64], m: usize, n: usize, k: usize) {
    for i in 0..m {
        for p in 0..k {
            for j in 0..n {
                c[i * n + j] += a[i * k + p] * b[p * n + j];
            }
        }
    }
}

/// Scalar stand-in for a microkernel: accumulates one tile from the panels.
/// `c` holds the rows of C from `first_row` on.
fn run_tile(t: &Tile, th: usize, vw: usize, a_panel: &[f64], b_panel: &[f64], c: &mut [f64], first_row: usize, n: usize) {
    for r in 0..th {
        for cc in 0..vw {
            let idx = (t.row + r - first_row) * n + t.col + cc;
            let mut acc = c[idx];
            for p in 0..t.k_len {
                acc += a_panel[t.panel_offset + p * th + r] * b_panel[p * vw + cc];
            }
            c[idx] = acc;
        }
    }
}

fn run_region(reg: &Region, a: &[f64], b: &[f64], c: &mut [f64], first_row: usize, n: usize, k: usize) {
    for i in reg.rows.start..reg.rows.end {
        for p in 0..k {
            for j in reg.col_start..reg.col_end {
                c[(i - first_row) * n + j] += a[i * k + p] * b[p * n + j];
            }
        }
    }
}

/// Executes a plan's schedule and edge regions; `c` holds rows `plan.row_start..plan.row_end` of C.
fn run_plan(plan: &GemmPlan, a: &[f64], b: &[f64], c: &mut [f64]) {
    let (n, k) = (plan.n, plan.k);
    let mut bt = vec![0.0; k * n];
    transpose(b, &mut bt, k, n);
    let mut a_panel = vec![0.0; plan.a_panel_len()];
    let mut b_panel = vec![0.0; plan.b_panel_len()];
    for step in plan.schedule() {
        match step {
            Step::PackA { kb, mb } => {
                let (k_start, k_len) = plan.k_block(kb);
                let rows = plan.m_block(mb);
                pack_a_panel(a, &mut a_panel, rows.start, k_start, rows.end - rows.start, k_len, k, plan.th);
            }
            Step::PackB { kb, jt } => {
                let (k_start, k_len) = plan.k_block(kb);
                pack_b_panel(&bt, &mut b_panel, plan.col_tile_start(jt), k_start, k_len, k, plan.vw);
            }
            Step::Kernel { kb, mb, jt, it } => {
                let t = plan.tile(kb, mb, jt, it);
                run_tile(&t, plan.th, plan.vw, &a_panel, &b_panel, c, plan.row_start, n);
            }
        }
    }
    run_region(&plan.edge_rows(), a, b, c, plan.row_start, n, k);
    run_region(&plan.edge_cols(), a, b, c, plan.row_start, n, k);
}

fn blocked(shape: TileShape, a: &[f64], b: &[f64], c: &mut [f64], m: usize, n: usize, k: usize) {
    let plan = GemmPlan::new(m, n, k, 0, m, shape, BlockingParams::tuned());
    run_plan(&plan, a, b, c);
}

/// Runs one plan per row range of `ranges`, each on its own rows of C.
fn split(shape: TileShape, threads: usize, a: &[f64], b: &[f64], c: &mut [f64], m: usize, n: usize, k: usize) {
    let mut rest = c;
    for range in partition_rows(m, threads) {
        let (mine, tail) = rest.split_at_mut((range.end - range.start) * n);
        let plan = GemmPlan::new(m, n, k, range.start, range.end, shape, BlockingParams::tuned());
        run_plan(&plan, a, b, mine);
        rest = tail;
    }
}

fn assert_matrices_equal(expected: &[f64], actual: &[f64], name: &str) {
    assert_eq!(expected.len(), actual.len(), "{}: length mismatch", name);
    for i in 0..expected.len() {
        assert!(
            (expected[i] - actual[i]).abs() < 1e-8,
            "{}: mismatch at index {}: expected {}, got {}",
            name,
            i,
            expected[i],
            actual[i]
        );
    }
}

fn pattern(len: usize, modulus: usize) -> Vec<f64> {
    (0..len).map(|i| (i % modulus) as f64).collect()
}

fn check_all_shapes(m: usize, n: usize, k: usize, name: &str) {
    let a = pattern(m * k, 10);
    let b = pattern(k * n, 10);
    let mut c_naive = vec![0.0; m * n];
    reference(&a, &b, &mut c_naive, m, n, k);
    for shape in SHAPES {
        let mut c_fast = vec![0.0; m * n];
        blocked(shape, &a, &b, &mut c_fast, m, n, k);
        assert_matrices_equal(&c_naive, &c_fast, &format!("{}_{:?}", name, shape));
    }
}

#[test]
fn test_2x2_multiply() {
    let a = vec![1.0, 2.0, 3.0, 4.0];
    let b = vec![5.0, 6.0, 7.0, 8.0];
    let mut c_naive = vec![0.0; 4];
    reference(&a, &b, &mut c_naive, 2, 2, 2);
    for shape in SHAPES {
        let mut c_fast = vec![0.0; 4];
        blocked(shape, &a, &b, &mut c_fast, 2, 2, 2);
        assert_matrices_equal(&c_naive, &c_fast, "2x2");
    }
}

#[test]
fn test_2x3_times_3x2() {
    let a = vec![1.0, 2.0, 3.0, 4.0, 5.0, 6.0]; // 2x3
    let b = vec![7.0, 8.0, 9.0, 10.0, 11.0, 12.0]; // 3x2
    let mut c_naive = vec![0.0; 4];
    reference(&a, &b, &mut c_naive, 2, 2, 3);
    assert_eq!(c_naive, vec![58.0, 64.0, 139.0, 154.0]);
    for shape in SHAPES {
        let mut c_fast = vec![0.0; 4];
        blocked(shape, &a, &b, &mut c_fast, 2, 2, 3);
        assert_matrices_equal(&c_naive, &c_fast, "2x3 * 3x2");
        assert_eq!(c_fast, vec![58.0, 64.0, 139.0, 154.0]);
    }
}

#[test]
fn test_small_odd_sizes() {
    for (m, n, k) in [(3, 3, 3), (5, 5, 5), (7, 7, 7), (3, 5, 7), (7, 3, 5), (11, 13, 17)] {
        check_all_shapes(m, n, k, &format!("{}x{}x{}", m, n, k));
    }
}

#[test]
fn test_tile_boundary_4x4() {
    for size in [3, 4, 5, 7, 8, 9, 15, 16, 17] {
        check_all_shapes(size, size, size, &format!("tile_4x4_size_{}", size));
    }
}

#[test]
fn test_tile_boundary_12x4() {
    for size in [11, 12, 13, 23, 24, 25, 35, 36, 37] {
        check_all_shapes(size, size, size, &format!("tile_12x4_size_{}", size));
    }
}

#[test]
fn test_tile_boundary_8x8() {
    for size in [7, 8, 9, 15, 16, 17, 23, 24, 25] {
        check_all_shapes(size, size, size, &format!("tile_8x8_size_{}", size));
    }
}

fn direct(shape: TileShape, sizes: &[usize], name: &str) {
    for &size in sizes {
        let a = pattern(size * size, 10);
        let b = pattern(size * size, 10);
        let mut c_naive = vec![0.0; size * size];
        let mut c_gemm = vec![0.0; size * size];
        reference(&a, &b, &mut c_naive, size, size, size);
        blocked(shape, &a, &b, &mut c_gemm, size, size, size);
        assert_matrices_equal(&c_naive, &c_gemm, &format!("{}_size_{}", name, size));
    }
}

#[test]
fn test_gemm_4x4_direct() {
    direct(TileShape::Small, &[4, 8, 16, 17, 31, 32, 33, 64, 65], "gemm_4x4");
}

#[test]
fn test_gemm_12x4_direct() {
    direct(TileShape::Wide, &[4, 12, 13, 24, 25, 36, 37, 48, 49], "gemm_12x4");
}

#[test]
fn test_gemm_8x8_direct() {
    direct(TileShape::Fat, &[8, 9, 16, 17, 24, 25, 32, 33, 64, 65], "gemm_8x8");
}

#[test]
fn gemm_8x8_test_gemm_8x8_correctness() {
    let (m, n, k) = (144, 128, 256);
    let a = pattern(m * k, 10);
    let b = pattern(k * n, 10);
    let mut c_naive = vec![0.0; m * n];
    reference(&a, &b, &mut c_naive, m, n, k);
    let mut c_gemm = vec![0.0; m * n];
    blocked(TileShape::Fat, &a, &b, &mut c_gemm, m, n, k);
    assert_matrices_equal(&c_naive, &c_gemm, "gemm_8x8");
}

#[test]
fn blocking_spans_several_reduction_and_row_blocks() {
    // k = 600 gives reduction blocks 256, 256, 88; m = 300 gives row blocks of 128.
    check_all_shapes(300, 21, 600, "multi_block");
}

#[test]
fn test_non_square_matrices() {
    for (m, n, k) in [(32, 64, 48), (64, 32, 48), (100, 50, 75), (48, 48, 100), (13, 17, 19)] {
        check_all_shapes(m, n, k, &format!("non_square_{}x{}x{}", m, n, k));
    }
}

#[test]
fn degenerate_dimensions() {
    check_all_shapes(0, 5, 5, "m0");
    check_all_shapes(5, 0, 5, "n0");
    let a = pattern(15, 10);
    let b: Vec<f64> = vec![];
    let mut c = vec![2.0; 15];
    blocked(TileShape::Wide, &a, &b, &mut c, 3, 5, 0);
    assert_eq!(c, vec![2.0; 15]);
}

#[test]
fn test_accumulation() {
    let size = 64;
    let a = pattern(size * size, 10);
    let b = pattern(size * size, 10);
    for shape in SHAPES {
        let mut c_naive = vec![5.0; size * size];
        let mut c_fast = vec![5.0; size * size];
        reference(&a, &b, &mut c_naive, size, size, size);
        blocked(shape, &a, &b, &mut c_fast, size, size, size);
        assert_matrices_equal(&c_naive, &c_fast, "accumulation");
        assert!(c_fast[0] > 5.0, "Should accumulate, not overwrite");
    }
}

#[test]
fn accumulating_twice_matches_reference_twice() {
    let (m, n, k) = (19, 23, 29);
    let a = pattern(m * k, 7);
    let b = pattern(k * n, 5);
    for shape in SHAPES {
        let mut c_naive = vec![1.5; m * n];
        let mut c_fast = vec![1.5; m * n];
        reference(&a, &b, &mut c_naive, m, n, k);
        reference(&a, &b, &mut c_naive, m, n, k);
        blocked(shape, &a, &b, &mut c_fast, m, n, k);
        blocked(shape, &a, &b, &mut c_fast, m, n, k);
        assert_matrices_equal(&c_naive, &c_fast, "twice");
    }
}

#[test]
fn test_parallel_matches_single_threaded() {
    for size in [64, 128, 256] {
        let a = pattern(size * size, 17);
        let b = pattern(size * size, 13);
        let mut c_single = vec![0.0; size * size];
        blocked(TileShape::Wide, &a, &b, &mut c_single, size, size, size);
        for threads in [1, 2, 4] {
            let mut c_parallel = vec![0.0; size * size];
            split(TileShape::Wide, threads, &a, &b, &mut c_parallel, size, size, size);
            assert_matrices_equal(&c_single, &c_parallel, &format!("parallel_size_{}", size));
        }
    }
}

#[test]
fn split_ranges_not_multiple_of_tile_height() {
    // 150 rows over 4 workers: 37, 37, 37 and 39 rows, none a multiple of 8 or 12.
    let (m, n, k) = (150, 33, 41);
    let a = pattern(m * k, 10);
    let b = pattern(k * n, 10);
    let mut c_naive = vec![0.0; m * n];
    reference(&a, &b, &mut c_naive, m, n, k);
    for shape in SHAPES {
        let mut c = vec![0.0; m * n];
        split(shape, 4, &a, &b, &mut c, m, n, k);
        assert_matrices_equal(&c_naive, &c, "uneven_split");
    }
}

#[test]
fn test_parallel_small_matrix() {
    let a = vec![1.0, 2.0, 3.0, 4.0, 5.0, 6.0];
    let b = vec![7.0, 8.0, 9.0, 10.0, 11.0, 12.0];
    let mut c_naive = vec![0.0; 4];
    reference(&a, &b, &mut c_naive, 2, 2, 3);
    let plans = plan_workers(2, 2, 3, 4, TileShape::Fat, BlockingParams::tuned());
    let mut c_parallel = vec![0.0; 4];
    for plan in &plans {
        run_plan(plan, &a, &b, &mut c_parallel[plan.row_start * 2..plan.row_end * 2]);
    }
    assert_matrices_equal(&c_naive, &c_parallel, "parallel_small");
}

fn mt_direct(shape: TileShape, name: &str) {
    let size = 256;
    let a = pattern(size * size, 10);
    let b = pattern(size * size, 10);
    let mut c_naive = vec![0.0; size * size];
    reference(&a, &b, &mut c_naive, size, size, size);
    let mut c_mt = vec![0.0; size * size];
    for plan in plan_workers(size, size, size, 4, shape, BlockingParams::tuned()) {
        run_plan(&plan, &a, &b, &mut c_mt[plan.row_start * size..plan.row_end * size]);
    }
    assert_matrices_equal(&c_naive, &c_mt, name);
}

#[test]
fn test_mt_4x4_direct() {
    mt_direct(TileShape::Small, "mt_4x4");
}

#[test]
fn test_mt_12x4_direct() {
    mt_direct(TileShape::Wide, "mt_12x4");
}

#[test]
fn test_mt_8x8_direct() {
    mt_direct(TileShape::Fat, "mt_8x8");
}

#[test]
fn test_gemm_8x8_mt_correctness() {
    mt_direct(TileShape::Fat, "gemm_8x8_mt");
}

#[test]
fn gemm_8x8_mt_test_gemm_8x8_correctness() {
    let (m, n, k) = (144, 128, 256);
    let a = pattern(m * k, 10);
    let b = pattern(k * n, 10);
    let mut c_naive = vec![0.0; m * n];
    reference(&a, &b, &mut c_naive, m, n, k);
    let mut c_gemm = vec![0.0; m * n];
    split(TileShape::Fat, 1, &a, &b, &mut c_gemm, m, n, k);
    assert_matrices_equal(&c_naive, &c_gemm, "gemm_8x8");
}

#[test]
fn plan_geometry_for_each_shape() {
    let p = GemmPlan::new(37, 37, 37, 0, 37, TileShape::Wide, BlockingParams::tuned());
    assert_eq!((p.th, p.vw, p.row_main_end, p.n_main, p.kc, p.mc), (12, 4, 36, 36, 37, 36));
    let p = GemmPlan::new(300, 17, 600, 10, 300, TileShape::Fat, BlockingParams::tuned());
    assert_eq!((p.row_main_end, p.n_main, p.kc, p.mc), (298, 16, 256, 128));
    assert_eq!(p.num_k_blocks(), 3);
    assert_eq!(p.k_block(2), (512, 88));
    assert_eq!(p.num_m_blocks(), 3);
    let last = p.m_block(2);
    assert_eq!((last.start, last.end), (266, 298));
    assert_eq!(p.tiles_in_m_block(2), 4);
    let t = p.tile(1, 2, 1, 3);
    assert_eq!((t.row, t.col, t.k_start, t.k_len, t.panel_offset), (290, 8, 256, 256, 24 * 256));
    let e = p.edge_rows();
    assert_eq!((e.rows.start, e.rows.end, e.col_start, e.col_end), (298, 300, 0, 17));
    let e = p.edge_cols();
    assert_eq!((e.rows.start, e.rows.end, e.col_start, e.col_end), (10, 298, 16, 17));
}

/// Packs an `th x k` A and a `k x vw` B with the library and runs one tile.
fn one_tile(th: usize, vw: usize, k: usize, a: &[f64], b: &[f64]) -> Vec<f64> {
    let mut a_pack = vec![0.0; k * th];
    pack_a_panel(a, &mut a_pack, 0, 0, th, k, k, th);
    let mut bt = vec![0.0; k * vw];
    transpose(b, &mut bt, k, vw);
    let mut b_pack = vec![0.0; k * vw];
    pack_b_panel(&bt, &mut b_pack, 0, 0, k, k, vw);
    let mut c = vec![0.0; th * vw];
    let t = Tile { row: 0, col: 0, k_start: 0, k_len: k, panel_offset: 0 };
    run_tile(&t, th, vw, &a_pack, &b_pack, &mut c, 0, vw);
    c
}

fn check_one_tile(th: usize, vw: usize) {
    let k = 16;
    let a: Vec<f64> = (0..th * k).map(|i| i as f64).collect();
    let b: Vec<f64> = (0..k * vw).map(|i| (i % 10) as f64).collect();
    let c = one_tile(th, vw, k, &a, &b);
    let mut c_expected = vec![0.0; th * vw];
    reference(&a, &b, &mut c_expected, th, vw, k);
    for i in 0..th * vw {
        assert!(
            (c[i] - c_expected[i]).abs() < 1e-10,
            "Mismatch at {}: got {}, expected {}",
            i,
            c[i],
            c_expected[i]
        );
    }
}

#[test]
fn test_kernel_12x4_correctness() {
    check_one_tile(12, 4);
}

#[test]
fn test_kernel_8x8_correctness() {
    check_one_tile(8, 8);
}

#[test]
fn schedule_order_for_two_blocks() {
    // 16 x 8 x 300 with 8 x 8 tiles and row blocks of 8: two reduction blocks,
    // two row blocks, one column tile, one tile per row block.
    let params = BlockingParams { kc: 256, mc: 8 };
    let plan = GemmPlan::new(16, 8, 300, 0, 16, TileShape::Fat, params);
    let steps = plan.schedule();
    let mut expected = Vec::new();
    for kb in 0..2 {
        for mb in 0..2 {
            expected.push(Step::PackA { kb, mb });
            expected.push(Step::PackB { kb, jt: 0 });
            expected.push(Step::Kernel { kb, mb, jt: 0, it: 0 });
        }
    }
    assert_eq!(steps, expected);
}

#[test]
fn schedule_counts_every_tile_once() {
    let plan = GemmPlan::new(300, 37, 600, 0, 300, TileShape::Wide, BlockingParams::tuned());
    let steps = plan.schedule();
    let kernels: Vec<(usize, usize, usize, usize)> = steps
        .iter()
        .filter_map(|s| match *s {
            Step::Kernel { kb, mb, jt, it } => Some((kb, mb, jt, it)),
            _ => None,
        })
        .collect();
    // 3 reduction blocks x 25 tile rows (300 rows) x 9 column tiles (36 columns).
    assert_eq!(kernels.len(), 3 * 25 * 9);
    let mut sorted = kernels.clone();
    sorted.sort();
    sorted.dedup();
    assert_eq!(sorted, kernels);
    let packs_a = steps.iter().filter(|s| matches!(s, Step::PackA { .. })).count();
    let packs_b = steps.iter().filter(|s| matches!(s, Step::PackB { .. })).count();
    // Row blocks of 120 rows: 120, 120, 60.
    assert_eq!(packs_a, 3 * 3);
    assert_eq!(packs_b, 3 * 3 * 9);
}

#[test]
fn schedule_of_edge_only_plan_is_empty() {
    let plan = GemmPlan::new(3, 3, 3, 0, 3, TileShape::Small, BlockingParams::tuned());
    assert!(plan.schedule().is_empty());
    let plan = GemmPlan::new(20, 20, 0, 0, 20, TileShape::Small, BlockingParams::tuned());
    assert!(plan.schedule().is_empty());
}
