//! The blocked engine's iteration space for one row range of C: which panels
//! are packed, which register tiles are computed from them, and which edge
//! regions are left to scalar accumulation.
use crate::packing::{packed_a_offset, packed_b_offset};
use crate::threading::RowRange;
use crate::tiling::{
    block_len,
    lemma_block_len,
    lemma_block_len_multiple,
    lemma_block_of,
    lemma_block_unique,
    num_blocks,
    BlockingParams,
    TileShape,
    MAX_BLOCK,
};
use vstd::arithmetic::div_mod::{lemma_fundamental_div_mod, lemma_mod_multiples_basic};
use vstd::prelude::*;

verus! {

/// One microkernel call: `C[row..row + height, col..col + width]` accumulates
/// the products over reduction indices `k_start..k_start + k_len`, reading
/// the packed A panel from `panel_offset` on and the packed B panel from 0.
#[derive(Clone, Copy, Debug, PartialEq, Eq, Structural)]
pub struct Tile {
    pub row: usize,
    pub col: usize,
    pub k_start: usize,
    pub k_len: usize,
    pub panel_offset: usize,
}

/// A rectangle of C, `rows x cols`, that is accumulated over the whole
/// reduction dimension by scalar code.
#[derive(Clone, Copy, Debug, PartialEq, Eq, Structural)]
pub struct Region {
    pub rows: RowRange,
    pub col_start: usize,
    pub col_end: usize,
}

/// The blocking of `C[row_start..row_end, 0..n] += A[row_start..row_end, :] * B`
/// for `A: m x k`, `B: k x n`.
#[derive(Clone, Copy, Debug, PartialEq, Eq, Structural)]
pub struct GemmPlan {
    pub m: usize,
    pub n: usize,
    pub k: usize,
    /// Tile height.
    pub th: usize,
    /// Tile width.
    pub vw: usize,
    pub row_start: usize,
    /// End of the rows that whole tiles cover, counted from `row_start`.
    pub row_main_end: usize,
    pub row_end: usize,
    /// End of the columns that whole tiles cover.
    pub n_main: usize,
    /// Reduction-block size.
    pub kc: usize,
    /// Row-block size, a multiple of `th`.
    pub mc: usize,
}

impl GemmPlan {
    /// The plan's invariant: the whole-tile grid is a multiple of the tile
    /// shape and leaves less than one tile over on each side, the block sizes
    /// are positive (the row block a multiple of the tile height), and the
    /// matrices' sizes fit in memory.
    pub open spec fn wf(self) -> bool {
        &&& 1 <= self.th <= 12
        &&& 1 <= self.vw <= self.th
        &&& self.row_start <= self.row_main_end <= self.row_end <= self.m
        &&& (self.row_main_end - self.row_start) % (self.th as int) == 0
        &&& self.row_end - self.row_main_end < self.th
        &&& self.n_main <= self.n
        &&& self.n_main % self.vw == 0
        &&& self.n - self.n_main < self.vw
        &&& 1 <= self.kc <= MAX_BLOCK
        &&& self.th <= self.mc <= MAX_BLOCK + 12
        &&& self.mc % self.th == 0
        &&& self.m * self.n <= usize::MAX
        &&& self.m * self.k <= usize::MAX
        &&& self.k * self.n <= usize::MAX
    }

    pub open spec fn main_rows(self) -> int {
        self.row_main_end - self.row_start
    }

    pub open spec fn spec_num_k_blocks(self) -> int {
        num_blocks(self.k as int, self.kc as int)
    }

    pub open spec fn spec_k_start(self, kb: int) -> int {
        kb * self.kc
    }

    pub open spec fn spec_k_len(self, kb: int) -> int {
        block_len(self.k as int, self.kc as int, kb)
    }

    pub open spec fn spec_num_m_blocks(self) -> int {
        num_blocks(self.main_rows(), self.mc as int)
    }

    pub open spec fn spec_m_start(self, mb: int) -> int {
        self.row_start + mb * self.mc
    }

    pub open spec fn spec_m_len(self, mb: int) -> int {
        block_len(self.main_rows(), self.mc as int, mb)
    }

    pub open spec fn spec_num_col_tiles(self) -> int {
        (self.n_main as int) / (self.vw as int)
    }

    pub open spec fn spec_tiles_in_m_block(self, mb: int) -> int {
        self.spec_m_len(mb) / (self.th as int)
    }

    pub open spec fn valid_tile(self, kb: int, mb: int, jt: int, it: int) -> bool {
        &&& 0 <= kb < self.spec_num_k_blocks()
        &&& 0 <= mb < self.spec_num_m_blocks()
        &&& 0 <= jt < self.spec_num_col_tiles()
        &&& 0 <= it < self.spec_tiles_in_m_block(mb)
    }

    pub open spec fn tile_row(self, mb: int, it: int) -> int {
        self.spec_m_start(mb) + it * self.th
    }

    pub open spec fn tile_col(self, jt: int) -> int {
        jt * self.vw
    }

    /// Tile `(kb, mb, jt, it)` accumulates the product `A[i, p] * B[p, j]` into `C[i, j]`.
    pub open spec fn tile_covers(self, kb: int, mb: int, jt: int, it: int, i: int, j: int, p: int) -> bool {
        &&& self.tile_row(mb, it) <= i < self.tile_row(mb, it) + self.th
        &&& self.tile_col(jt) <= j < self.tile_col(jt) + self.vw
        &&& self.spec_k_start(kb) <= p < self.spec_k_start(kb) + self.spec_k_len(kb)
    }

    /// `C[i, j]` lies below the last whole row of tiles.
    pub open spec fn in_edge_rows(self, i: int, j: int) -> bool {
        self.row_main_end <= i < self.row_end && 0 <= j < self.n
    }

    /// `C[i, j]` lies right of the last whole column of tiles, beside them.
    pub open spec fn in_edge_cols(self, i: int, j: int) -> bool {
        self.row_start <= i < self.row_main_end && self.n_main <= j < self.n
    }

    /// `C[i, j]` lies in the grid of whole tiles.
    pub open spec fn in_tile_grid(self, i: int, j: int) -> bool {
        self.row_start <= i < self.row_main_end && 0 <= j < self.n_main
    }

    /// Reduction block holding index `p`.
    pub open spec fn owner_kb(self, p: int) -> int {
        p / (self.kc as int)
    }

    /// Row block holding row `i`.
    pub open spec fn owner_mb(self, i: int) -> int {
        (i - self.row_start) / (self.mc as int)
    }

    /// Tile of its row block holding row `i`.
    pub open spec fn owner_it(self, i: int) -> int {
        (i - self.row_start - self.owner_mb(i) * self.mc) / (self.th as int)
    }

    /// Column tile holding column `j`.
    pub open spec fn owner_jt(self, j: int) -> int {
        j / (self.vw as int)
    }

    /// The plan of `C[row_start..row_end, :] += A[row_start..row_end, :] * B`.
    pub open spec fn spec_new(
        m: usize,
        n: usize,
        k: usize,
        row_start: usize,
        row_end: usize,
        shape: TileShape,
        params: BlockingParams,
    ) -> GemmPlan {
        let th = shape.spec_height();
        let vw = shape.spec_width();
        let range = row_end - row_start;
        let r = if range < params.mc {
            range
        } else {
            params.mc as int
        };
        GemmPlan {
            m,
            n,
            k,
            th: th as usize,
            vw: vw as usize,
            row_start,
            row_main_end: (row_start + (range / th) * th) as usize,
            row_end,
            n_main: ((n as int / vw) * vw) as usize,
            kc: if k == 0 {
                1
            } else if k < params.kc {
                k
            } else {
                params.kc
            },
            mc: if r / th == 0 {
                th as usize
            } else {
                ((r / th) * th) as usize
            },
        }
    }

    /// Plans `C[row_start..row_end, :] += A[row_start..row_end, :] * B` with
    /// tiles of `shape`. Whole tiles are counted from `row_start`; the reduction
    /// block is `min(k, params.kc)` (at least 1) and the row block is
    /// `min(row_end - row_start, params.mc)` rounded down to a multiple of the
    /// tile height (at least one tile).
    pub fn new(
        m: usize,
        n: usize,
        k: usize,
        row_start: usize,
        row_end: usize,
        shape: TileShape,
        params: BlockingParams,
    ) -> (p: GemmPlan)
        requires
            row_start <= row_end <= m,
            params.wf(),
            m * n <= usize::MAX,
            m * k <= usize::MAX,
            k * n <= usize::MAX,
        ensures
            p.wf(),
            p == GemmPlan::spec_new(m, n, k, row_start, row_end, shape, params),
    {
        proof {
            lemma_spec_new_wf(m, n, k, row_start, row_end, shape, params);
        }
        let th = shape.height();
        let vw = shape.width();
        let range = row_end - row_start;
        proof {
            lemma_fundamental_div_mod(range as int, th as int);
            assert((range as int / th as int) * th as int <= range) by (nonlinear_arith)
                requires
                    range == th * (range as int / th as int) + range as int % th as int,
                    0 <= range as int % th as int,
            ;
        }
        let main = (range / th) * th;
        let n_main = (n / vw) * vw;
        let kc: usize = if k == 0 {
            1
        } else if k < params.kc {
            k
        } else {
            params.kc
        };
        let r: usize = if range < params.mc {
            range
        } else {
            params.mc
        };
        proof {
            lemma_fundamental_div_mod(r as int, th as int);
            lemma_mod_multiples_basic(r as int / th as int, th as int);
        }
        let mc: usize = if r / th == 0 {
            th
        } else {
            (r / th) * th
        };
        GemmPlan {
            m,
            n,
            k,
            th,
            vw,
            row_start,
            row_main_end: row_start + main,
            row_end,
            n_main,
            kc,
            mc,
        }
    }

    /// Number of reduction blocks.
    pub fn num_k_blocks(&self) -> (r: usize)
        requires
            self.wf(),
        ensures
            r as int == self.spec_num_k_blocks(),
    {
        let q = self.k / self.kc;
        if self.k % self.kc == 0 {
            q
        } else {
            proof {
                lemma_fundamental_div_mod(self.k as int, self.kc as int);
                assert(q < self.k) by (nonlinear_arith)
                    requires
                        self.kc >= 2,
                        self.k == self.kc * q + self.k % self.kc,
                        self.k % self.kc > 0,
                ;
            }
            q + 1
        }
    }

    /// Reduction block `kb`: its first index and its length.
    pub fn k_block(&self, kb: usize) -> (r: (usize, usize))
        requires
            self.wf(),
            kb < self.spec_num_k_blocks(),
        ensures
            r.0 as int == self.spec_k_start(kb as int),
            r.1 as int == self.spec_k_len(kb as int),
    {
        proof {
            lemma_block_len(self.k as int, self.kc as int, kb as int);
        }
        let start = kb * self.kc;
        let rest = self.k - start;
        if rest < self.kc {
            (start, rest)
        } else {
            (start, self.kc)
        }
    }

    /// Number of row blocks in the grid of whole tiles.
    pub fn num_m_blocks(&self) -> (r: usize)
        requires
            self.wf(),
        ensures
            r as int == self.spec_num_m_blocks(),
    {
        let main = self.row_main_end - self.row_start;
        let q = main / self.mc;
        if main % self.mc == 0 {
            q
        } else {
            proof {
                lemma_fundamental_div_mod(main as int, self.mc as int);
                assert(q < main) by (nonlinear_arith)
                    requires
                        self.mc >= 1,
                        main == self.mc * q + main % self.mc,
                        main % self.mc > 0,
                ;
            }
            q + 1
        }
    }

    /// Row block `mb`: the rows of C (and of A) that one packed A panel holds.
    pub fn m_block(&self, mb: usize) -> (r: RowRange)
        requires
            self.wf(),
            mb < self.spec_num_m_blocks(),
        ensures
            r.start as int == self.spec_m_start(mb as int),
            r.start <= r.end,
            r.end - r.start == self.spec_m_len(mb as int),
    {
        proof {
            lemma_block_len(self.main_rows(), self.mc as int, mb as int);
        }
        let offset = mb * self.mc;
        let rest = self.row_main_end - self.row_start - offset;
        let len = if rest < self.mc {
            rest
        } else {
            self.mc
        };
        RowRange { start: self.row_start + offset, end: self.row_start + offset + len }
    }

    /// Number of column tiles in the grid of whole tiles.
    pub fn num_col_tiles(&self) -> (r: usize)
        requires
            self.wf(),
        ensures
            r as int == self.spec_num_col_tiles(),
    {
        self.n_main / self.vw
    }

    /// First column of column tile `jt`.
    pub fn col_tile_start(&self, jt: usize) -> (r: usize)
        requires
            self.wf(),
            jt < self.spec_num_col_tiles(),
        ensures
            r as int == self.tile_col(jt as int),
            r + self.vw <= self.n_main,
    {
        proof {
            lemma_fundamental_div_mod(self.n_main as int, self.vw as int);
            assert(jt * self.vw + self.vw <= self.n_main) by (nonlinear_arith)
                requires
                    jt < self.n_main as int / self.vw as int,
                    self.n_main == self.vw * (self.n_main as int / self.vw as int) + 0,
                    self.vw > 0,
            ;
        }
        jt * self.vw
    }

    /// Number of register tiles stacked in row block `mb`.
    pub fn tiles_in_m_block(&self, mb: usize) -> (r: usize)
        requires
            self.wf(),
            mb < self.spec_num_m_blocks(),
        ensures
            r as int == self.spec_tiles_in_m_block(mb as int),
    {
        let rows = self.m_block(mb);
        (rows.end - rows.start) / self.th
    }

    /// Length of the packed A buffer: one row block by one reduction block.
    pub fn a_panel_len(&self) -> (r: usize)
        requires
            self.wf(),
        ensures
            r as int == self.mc * self.kc,
    {
        proof {
            assert(self.mc * self.kc <= (MAX_BLOCK + 12) * MAX_BLOCK) by (nonlinear_arith)
                requires
                    self.mc <= MAX_BLOCK + 12,
                    self.kc <= MAX_BLOCK,
            ;
        }
        self.mc * self.kc
    }

    /// Length of the packed B buffer: one column tile by one reduction block.
    pub fn b_panel_len(&self) -> (r: usize)
        requires
            self.wf(),
        ensures
            r as int == self.vw * self.kc,
    {
        proof {
            assert(self.vw * self.kc <= 12 * MAX_BLOCK) by (nonlinear_arith)
                requires
                    self.vw <= 12,
                    self.kc <= MAX_BLOCK,
            ;
        }
        self.vw * self.kc
    }

    /// Tile `it` of row block `mb`, column tile `jt`, reduction block `kb`.
    pub fn tile(&self, kb: usize, mb: usize, jt: usize, it: usize) -> (t: Tile)
        requires
            self.wf(),
            self.valid_tile(kb as int, mb as int, jt as int, it as int),
        ensures
            t.row as int == self.tile_row(mb as int, it as int),
            t.col as int == self.tile_col(jt as int),
            t.k_start as int == self.spec_k_start(kb as int),
            t.k_len as int == self.spec_k_len(kb as int),
            t.panel_offset as int == it * self.th * self.spec_k_len(kb as int),
    {
        proof {
            lemma_tile_inside(*self, kb as int, mb as int, jt as int, it as int);
        }
        let (k_start, k_len) = self.k_block(kb);
        let rows = self.m_block(mb);
        proof {
            assert(it * self.th * k_len <= (MAX_BLOCK + 12) * MAX_BLOCK) by (nonlinear_arith)
                requires
                    it * self.th * k_len <= self.mc * self.kc,
                    self.mc <= MAX_BLOCK + 12,
                    self.kc <= MAX_BLOCK,
            ;
        }
        Tile {
            row: rows.start + it * self.th,
            col: jt * self.vw,
            k_start,
            k_len,
            panel_offset: it * self.th * k_len,
        }
    }

    /// The rows below the grid of whole tiles, across every column.
    pub fn edge_rows(&self) -> (r: Region)
        requires
            self.wf(),
        ensures
            r.rows.start == self.row_main_end,
            r.rows.end == self.row_end,
            r.col_start == 0,
            r.col_end == self.n,
    {
        Region {
            rows: RowRange { start: self.row_main_end, end: self.row_end },
            col_start: 0,
            col_end: self.n,
        }
    }

    /// The columns right of the grid of whole tiles, beside it.
    pub fn edge_cols(&self) -> (r: Region)
        requires
            self.wf(),
        ensures
            r.rows.start == self.row_start,
            r.rows.end == self.row_main_end,
            r.col_start == self.n_main,
            r.col_end == self.n,
    {
        Region {
            rows: RowRange { start: self.row_start, end: self.row_main_end },
            col_start: self.n_main,
            col_end: self.n,
        }
    }
}

/// A plan made from admissible arguments is well formed.
pub proof fn lemma_spec_new_wf(
    m: usize,
    n: usize,
    k: usize,
    row_start: usize,
    row_end: usize,
    shape: TileShape,
    params: BlockingParams,
)
    requires
        row_start <= row_end <= m,
        params.wf(),
        m * n <= usize::MAX,
        m * k <= usize::MAX,
        k * n <= usize::MAX,
    ensures
        GemmPlan::spec_new(m, n, k, row_start, row_end, shape, params).wf(),
{
    let th = shape.spec_height();
    let vw = shape.spec_width();
    let range = row_end - row_start;
    let r = if range < params.mc {
        range
    } else {
        params.mc as int
    };
    lemma_fundamental_div_mod(range, th);
    lemma_fundamental_div_mod(n as int, vw);
    lemma_fundamental_div_mod(r, th);
    lemma_mod_multiples_basic(range / th, th);
    lemma_mod_multiples_basic(n as int / vw, vw);
    lemma_mod_multiples_basic(r / th, th);
}

/// Every tile lies inside the grid of whole tiles and inside the reduction
/// range, is fed by its row block's packed A panel (whose buffer it stays
/// within), and reads that panel where packing put its rows.
pub proof fn lemma_tile_inside(plan: GemmPlan, kb: int, mb: int, jt: int, it: int)
    requires
        plan.wf(),
        plan.valid_tile(kb, mb, jt, it),
    ensures
        plan.row_start <= plan.spec_m_start(mb) <= plan.tile_row(mb, it),
        plan.tile_row(mb, it) + plan.th <= plan.spec_m_start(mb) + plan.spec_m_len(mb)
            <= plan.row_main_end,
        0 <= plan.tile_col(jt),
        plan.tile_col(jt) + plan.vw <= plan.n_main,
        0 <= plan.spec_k_start(kb),
        1 <= plan.spec_k_len(kb) <= plan.kc,
        plan.spec_k_start(kb) + plan.spec_k_len(kb) <= plan.k,
        1 <= plan.spec_m_len(mb) <= plan.mc,
        plan.spec_m_len(mb) % (plan.th as int) == 0,
        0 <= it * plan.th,
        it * plan.th * plan.spec_k_len(kb) + plan.th * plan.spec_k_len(kb) <= plan.spec_m_len(mb)
            * plan.spec_k_len(kb),
        plan.spec_m_len(mb) * plan.spec_k_len(kb) <= plan.mc * plan.kc,
        forall|r: int, q: int|
            0 <= r < plan.th && 0 <= q < plan.spec_k_len(kb) ==> {
                &&& it * plan.th + r < plan.spec_m_len(mb)
                &&& #[trigger] packed_a_offset(it * plan.th + r, q, plan.th as int, plan.spec_k_len(kb))
                    == it * plan.th * plan.spec_k_len(kb) + q * plan.th + r
            },
{
    let th = plan.th as int;
    let klen = plan.spec_k_len(kb);
    let mlen = plan.spec_m_len(mb);
    lemma_block_len(plan.k as int, plan.kc as int, kb);
    lemma_block_len(plan.main_rows(), plan.mc as int, mb);
    lemma_block_len_multiple(plan.main_rows(), plan.mc as int, mb, th);
    lemma_fundamental_div_mod(mlen, th);
    assert(it * th + th <= mlen) by (nonlinear_arith)
        requires
            0 <= it < mlen / th,
            mlen == th * (mlen / th),
            th > 0,
    ;
    assert(0 <= it * th) by (nonlinear_arith)
        requires
            0 <= it,
            th > 0,
    ;
    let nt = plan.spec_num_col_tiles();
    lemma_fundamental_div_mod(plan.n_main as int, plan.vw as int);
    assert(jt * plan.vw + plan.vw <= plan.n_main && 0 <= jt * plan.vw) by (nonlinear_arith)
        requires
            0 <= jt < nt,
            nt == plan.n_main as int / plan.vw as int,
            plan.n_main == plan.vw * nt,
            plan.vw > 0,
    ;
    assert(it * th * klen + th * klen <= mlen * klen) by (nonlinear_arith)
        requires
            it * th + th <= mlen,
            klen >= 1,
    ;
    assert(mlen * klen <= plan.mc * plan.kc) by (nonlinear_arith)
        requires
            1 <= mlen <= plan.mc,
            1 <= klen <= plan.kc,
    ;
    assert forall|r: int, q: int| 0 <= r < th && 0 <= q < klen implies {
        &&& it * th + r < mlen
        &&& #[trigger] packed_a_offset(it * th + r, q, th, klen) == it * th * klen + q * th + r
    } by {
        lemma_fundamental_div_mod_converse_div_mod(it * th + r, th, it, r);
        assert(it * th * klen == (it * th) * klen);
    }
}

/// The blocking is exact: `C[row_start..row_end, 0..n]` splits into the grid of
/// whole tiles and the two edge regions, with no overlap; and for every
/// reduction index `p`, a position of the grid is updated by exactly one tile,
/// the one of reduction block `p / kc`, row block `(i - row_start) / mc`, its
/// tile of the row and column tile `j / vw`. So each product `A[i, p] * B[p, j]`
/// is accumulated into `C[i, j]` exactly once, for every tile shape and every
/// size, multiple of the tile or not.
pub proof fn lemma_exact_cover(plan: GemmPlan, i: int, j: int, p: int)
    requires
        plan.wf(),
        plan.row_start <= i < plan.row_end,
        0 <= j < plan.n,
        0 <= p < plan.k,
    ensures
        plan.in_tile_grid(i, j) || plan.in_edge_rows(i, j) || plan.in_edge_cols(i, j),
        !(plan.in_tile_grid(i, j) && plan.in_edge_rows(i, j)),
        !(plan.in_tile_grid(i, j) && plan.in_edge_cols(i, j)),
        !(plan.in_edge_rows(i, j) && plan.in_edge_cols(i, j)),
        plan.in_tile_grid(i, j) ==> {
            &&& plan.valid_tile(plan.owner_kb(p), plan.owner_mb(i), plan.owner_jt(j), plan.owner_it(i))
            &&& plan.tile_covers(
                plan.owner_kb(p),
                plan.owner_mb(i),
                plan.owner_jt(j),
                plan.owner_it(i),
                i,
                j,
                p,
            )
        },
        forall|kb: int, mb: int, jt: int, it: int|
            plan.valid_tile(kb, mb, jt, it) && #[trigger] plan.tile_covers(kb, mb, jt, it, i, j, p)
                ==> {
                &&& plan.in_tile_grid(i, j)
                &&& kb == plan.owner_kb(p)
                &&& mb == plan.owner_mb(i)
                &&& jt == plan.owner_jt(j)
                &&& it == plan.owner_it(i)
            },
{
    let th = plan.th as int;
    let vw = plan.vw as int;
    let mc = plan.mc as int;
    let kc = plan.kc as int;
    let main = plan.main_rows();
    lemma_fundamental_div_mod(plan.n_main as int, vw);
    assert(num_blocks(plan.n_main as int, vw) == plan.spec_num_col_tiles());
    if plan.in_tile_grid(i, j) {
        let x = i - plan.row_start;
        let kb = plan.owner_kb(p);
        let mb = plan.owner_mb(i);
        let jt = plan.owner_jt(j);
        lemma_block_of(p, plan.k as int, kc);
        lemma_block_of(x, main, mc);
        lemma_block_of(j, plan.n_main as int, vw);
        lemma_block_len(main, mc, mb);
        lemma_block_len_multiple(main, mc, mb, th);
        let mlen = plan.spec_m_len(mb);
        let y = x - mb * mc;
        lemma_block_of(y, mlen, th);
        lemma_fundamental_div_mod(mlen, th);
        assert(num_blocks(mlen, th) == plan.spec_tiles_in_m_block(mb));
        let it = plan.owner_it(i);
        assert(it == y / th);
        assert(block_len(mlen, th, it) <= th);
        assert(plan.tile_row(mb, it) == plan.row_start + mb * mc + it * th);
        assert(block_len(plan.n_main as int, vw, jt) <= vw);
    }
    assert forall|kb: int, mb: int, jt: int, it: int|
        plan.valid_tile(kb, mb, jt, it) && #[trigger] plan.tile_covers(kb, mb, jt, it, i, j, p)
            implies {
        &&& plan.in_tile_grid(i, j)
        &&& kb == plan.owner_kb(p)
        &&& mb == plan.owner_mb(i)
        &&& jt == plan.owner_jt(j)
        &&& it == plan.owner_it(i)
    } by {
        lemma_tile_inside(plan, kb, mb, jt, it);
        let x = i - plan.row_start;
        let mlen = plan.spec_m_len(mb);
        lemma_block_unique(p, plan.k as int, kc, kb);
        assert(mb * mc <= x < mb * mc + block_len(main, mc, mb));
        lemma_block_unique(x, main, mc, mb);
        let y = x - mb * mc;
        assert(it * th <= y < it * th + block_len(mlen, th, it));
        lemma_block_unique(y, mlen, th, it);
        assert(jt * vw <= j < jt * vw + block_len(plan.n_main as int, vw, jt));
        lemma_block_unique(j, plan.n_main as int, vw, jt);
    }
}

/// A tile reads A where `pack_a_panel` put it: once its row block `mb` is
/// packed for reduction block `kb`, step `q` of tile `it` finds row `r` of the
/// tile at `panel_offset + q * th + r`, and that is `A[tile_row + r, k_start + q]`.
pub proof fn lemma_tile_reads_packed_a<T>(
    plan: GemmPlan,
    kb: int,
    mb: int,
    jt: int,
    it: int,
    a: Seq<T>,
    panel: Seq<T>,
)
    requires
        plan.wf(),
        plan.valid_tile(kb, mb, jt, it),
        forall|i: int, p: int|
            0 <= i < plan.spec_m_len(mb) && 0 <= p < plan.spec_k_len(kb) ==> #[trigger] panel[packed_a_offset(
                i,
                p,
                plan.th as int,
                plan.spec_k_len(kb),
            )] == a[(plan.spec_m_start(mb) + i) * plan.k + plan.spec_k_start(kb) + p],
    ensures
        forall|r: int, q: int|
            0 <= r < plan.th && 0 <= q < plan.spec_k_len(kb) ==> #[trigger] panel[it * plan.th
                * plan.spec_k_len(kb) + q * plan.th + r] == a[(plan.tile_row(mb, it) + r) * plan.k
                + plan.spec_k_start(kb) + q],
{
    lemma_tile_inside(plan, kb, mb, jt, it);
    assert forall|r: int, q: int| 0 <= r < plan.th && 0 <= q < plan.spec_k_len(kb) implies #[trigger] panel[it
        * plan.th * plan.spec_k_len(kb) + q * plan.th + r] == a[(plan.tile_row(mb, it) + r) * plan.k
        + plan.spec_k_start(kb) + q] by {
        let i = it * plan.th + r;
        assert(packed_a_offset(i, q, plan.th as int, plan.spec_k_len(kb)) == it * plan.th
            * plan.spec_k_len(kb) + q * plan.th + r);
        assert(plan.spec_m_start(mb) + i == plan.tile_row(mb, it) + r);
    }
}

/// A tile reads B where `transpose` and `pack_b_panel` put it: once the column
/// tile `jt` is packed for reduction block `kb` from the transpose of B, step
/// `q` finds column `c` of the tile at `q * vw + c`, and that is
/// `B[k_start + q, tile_col + c]`.
pub proof fn lemma_tile_reads_packed_b<T>(
    plan: GemmPlan,
    kb: int,
    mb: int,
    jt: int,
    it: int,
    b: Seq<T>,
    bt: Seq<T>,
    b_panel: Seq<T>,
)
    requires
        plan.wf(),
        plan.valid_tile(kb, mb, jt, it),
        forall|i: int, j: int|
            0 <= i < plan.k && 0 <= j < plan.n ==> #[trigger] bt[j * plan.k + i] == b[i * plan.n
                + j],
        forall|c: int, p: int|
            0 <= c < plan.vw && 0 <= p < plan.spec_k_len(kb) ==> #[trigger] b_panel[packed_b_offset(
                c,
                p,
                plan.vw as int,
            )] == bt[(plan.tile_col(jt) + c) * plan.k + plan.spec_k_start(kb) + p],
    ensures
        forall|c: int, q: int|
            0 <= c < plan.vw && 0 <= q < plan.spec_k_len(kb) ==> #[trigger] b_panel[q * plan.vw
                + c] == b[(plan.spec_k_start(kb) + q) * plan.n + plan.tile_col(jt) + c],
{
    lemma_tile_inside(plan, kb, mb, jt, it);
    assert forall|c: int, q: int| 0 <= c < plan.vw && 0 <= q < plan.spec_k_len(kb) implies #[trigger] b_panel[q
        * plan.vw + c] == b[(plan.spec_k_start(kb) + q) * plan.n + plan.tile_col(jt) + c] by {
        assert(b_panel[packed_b_offset(c, q, plan.vw as int)] == bt[(plan.tile_col(jt) + c)
            * plan.k + plan.spec_k_start(kb) + q]);
        assert(bt[(plan.tile_col(jt) + c) * plan.k + (plan.spec_k_start(kb) + q)] == b[(
        plan.spec_k_start(kb) + q) * plan.n + (plan.tile_col(jt) + c)]);
    }
}

proof fn lemma_fundamental_div_mod_converse_div_mod(x: int, d: int, q: int, r: int)
    requires
        d > 0,
        0 <= r < d,
        x == q * d + r,
    ensures
        x / d == q,
        x % d == r,
{
    vstd::arithmetic::div_mod::lemma_fundamental_div_mod_converse_div(x, d, q, r);
    vstd::arithmetic::div_mod::lemma_fundamental_div_mod_converse_mod(x, d, q, r);
}

} // verus!
