//! The three-level blocking of the engine: reduction blocks of `kc` columns of A,
//! row blocks of `mc` rows, column tiles of one vector width, and register tiles
//! of one tile height, plus the two edge regions that whole tiles leave over.
use vstd::arithmetic::div_mod::{
    lemma_fundamental_div_mod,
    lemma_fundamental_div_mod_converse_div,
    lemma_mod_multiples_basic,
};
use vstd::prelude::*;

verus! {

/// Number of blocks of size `b` that cover `[0, total)`, the last one possibly short.
pub open spec fn num_blocks(total: int, b: int) -> int {
    if total % b == 0 {
        total / b
    } else {
        total / b + 1
    }
}

/// Length of block `q` of size `b` over `[0, total)`.
pub open spec fn block_len(total: int, b: int, q: int) -> int {
    if total - q * b < b {
        total - q * b
    } else {
        b
    }
}

proof fn lemma_div_bounds(x: int, b: int)
    requires
        0 <= x,
        b > 0,
    ensures
        0 <= x / b,
        (x / b) * b <= x < (x / b) * b + b,
{
    lemma_fundamental_div_mod(x, b);
    assert(b * (x / b) == (x / b) * b) by (nonlinear_arith);
    assert(0 <= x / b) by (nonlinear_arith)
        requires
            0 <= x,
            b > 0,
            x == (x / b) * b + (x % b),
            0 <= x % b < b,
    ;
}

/// Block `q` of size `b` lies inside `[0, total)` and is not empty.
pub proof fn lemma_block_len(total: int, b: int, q: int)
    requires
        0 <= total,
        b > 0,
        0 <= q < num_blocks(total, b),
    ensures
        1 <= block_len(total, b, q) <= b,
        0 <= q * b,
        q * b + block_len(total, b, q) <= total,
{
    let qt = total / b;
    lemma_div_bounds(total, b);
    lemma_fundamental_div_mod(total, b);
    assert(b * qt == qt * b) by (nonlinear_arith);
    assert(0 <= q * b) by (nonlinear_arith)
        requires
            0 <= q,
            b > 0,
    ;
    if q < qt {
        assert(q * b + b <= qt * b) by (nonlinear_arith)
            requires
                q < qt,
                b > 0,
        ;
    } else {
        assert(q == qt);
        assert(total % b != 0);
    }
}

/// The block holding `x` is block `x / b`.
pub proof fn lemma_block_of(x: int, total: int, b: int)
    requires
        0 <= x < total,
        b > 0,
    ensures
        0 <= x / b < num_blocks(total, b),
        (x / b) * b <= x < (x / b) * b + block_len(total, b, x / b),
{
    let q = x / b;
    let qt = total / b;
    lemma_div_bounds(x, b);
    lemma_div_bounds(total, b);
    lemma_fundamental_div_mod(total, b);
    assert(b * qt == qt * b) by (nonlinear_arith);
    if q > qt {
        assert(q * b >= qt * b + b) by (nonlinear_arith)
            requires
                q > qt,
                b > 0,
        ;
    }
    if q == qt && total % b == 0 {
        assert(false);
    }
}

/// No other block than `x / b` holds `x`.
pub proof fn lemma_block_unique(x: int, total: int, b: int, q: int)
    requires
        b > 0,
        0 <= q,
        q * b <= x < q * b + block_len(total, b, q),
    ensures
        q == x / b,
{
    lemma_fundamental_div_mod_converse_div(x, b, q, x - q * b);
}

/// Where `total` and `b` are both multiples of `t`, so is every block length.
pub proof fn lemma_block_len_multiple(total: int, b: int, q: int, t: int)
    requires
        t > 0,
        total % t == 0,
        b % t == 0,
    ensures
        block_len(total, b, q) % t == 0,
{
    lemma_fundamental_div_mod(total, t);
    lemma_fundamental_div_mod(b, t);
    let ta = total / t;
    let tb = b / t;
    assert(total - q * b == (ta - q * tb) * t) by (nonlinear_arith)
        requires
            total == t * ta,
            b == t * tb,
    ;
    lemma_mod_multiples_basic(ta - q * tb, t);
    lemma_mod_multiples_basic(tb, t);
    assert(b == tb * t) by (nonlinear_arith)
        requires
            b == t * tb,
    ;
}

/// The register-tile shapes of the microkernel family: `height` rows of C by
/// `width` columns (one vector register per row).
#[derive(Clone, Copy, Debug, PartialEq, Eq, Structural)]
pub enum TileShape {
    /// 4 x 4: four accumulators, the least register pressure.
    Small,
    /// 12 x 4: twelve accumulators, more instruction-level parallelism.
    Wide,
    /// 8 x 8: eight accumulators on the wider vector registers.
    Fat,
}

impl TileShape {
    pub open spec fn spec_height(self) -> int {
        match self {
            TileShape::Small => 4,
            TileShape::Wide => 12,
            TileShape::Fat => 8,
        }
    }

    pub open spec fn spec_width(self) -> int {
        match self {
            TileShape::Small => 4,
            TileShape::Wide => 4,
            TileShape::Fat => 8,
        }
    }

    /// Rows of C that one kernel call updates.
    pub fn height(&self) -> (r: usize)
        ensures
            r as int == self.spec_height(),
    {
        match self {
            TileShape::Small => 4,
            TileShape::Wide => 12,
            TileShape::Fat => 8,
        }
    }

    /// Columns of C that one kernel call updates (doubles per vector register).
    pub fn width(&self) -> (r: usize)
        ensures
            r as int == self.spec_width(),
    {
        match self {
            TileShape::Small => 4,
            TileShape::Wide => 4,
            TileShape::Fat => 8,
        }
    }
}

/// Largest block size accepted for either tuning parameter.
pub const MAX_BLOCK: usize = 32768;

/// Reduction-block size that keeps the packed B panel in L1.
pub const DEFAULT_KC: usize = 256;

/// Row-block size that keeps the packed A panel in L2.
pub const DEFAULT_MC: usize = 128;

/// Cache-blocking tuning: `kc` columns of A per reduction block and `mc` rows
/// per row block (both upper bounds, clipped to the problem).
#[derive(Clone, Copy, Debug, PartialEq, Eq, Structural)]
pub struct BlockingParams {
    pub kc: usize,
    pub mc: usize,
}

impl BlockingParams {
    pub open spec fn wf(self) -> bool {
        1 <= self.kc <= MAX_BLOCK && 1 <= self.mc <= MAX_BLOCK
    }

    /// The sizes tuned for common L1/L2 capacities: `kc = 256`, `mc = 128`.
    pub fn tuned() -> (r: BlockingParams)
        ensures
            r.wf(),
            r.kc == DEFAULT_KC,
            r.mc == DEFAULT_MC,
    {
        BlockingParams { kc: DEFAULT_KC, mc: DEFAULT_MC }
    }
}

} // verus!
