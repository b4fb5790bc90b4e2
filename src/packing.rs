//! Packing: copying a block of A, or a tile's columns of B, into a small dense
//! panel laid out in the order in which the microkernel reads it.
use crate::matrix::{lemma_row_major_in_bounds, lemma_row_major_unique};
use vstd::arithmetic::div_mod::lemma_fundamental_div_mod;
use vstd::prelude::*;

verus! {

/// Offset in a packed A panel of row `i` (counted from the panel's first row)
/// and reduction index `p`, for tile height `th` and a block of `k_len` indices:
/// the `th` rows of one tile are stored side by side for each `p`.
pub open spec fn packed_a_offset(i: int, p: int, th: int, k_len: int) -> int {
    (i / th) * th * k_len + p * th + i % th
}

/// Offset in a packed B panel of column `c` (counted from the tile's first
/// column) and reduction index `p`, for tile width `vw`.
pub open spec fn packed_b_offset(c: int, p: int, vw: int) -> int {
    p * vw + c
}

proof fn lemma_packed_a_offset(i: int, p: int, th: int, k_len: int, m_block: int)
    requires
        th > 0,
        0 <= i < m_block,
        0 <= p < k_len,
        m_block % th == 0,
    ensures
        packed_a_offset(i, p, th, k_len) == ((i / th) * k_len + p) * th + i % th,
        0 <= packed_a_offset(i, p, th, k_len) < m_block * k_len,
        0 <= i / th,
        0 <= i % th < th,
{
    lemma_fundamental_div_mod(i, th);
    lemma_fundamental_div_mod(m_block, th);
    let g = i / th;
    let mg = m_block / th;
    assert(0 <= g < mg) by (nonlinear_arith)
        requires
            i == th * g + i % th,
            m_block == th * mg + 0,
            0 <= i % th < th,
            0 <= i < m_block,
            th > 0,
    ;
    assert(g * th * k_len + p * th == (g * k_len + p) * th) by (nonlinear_arith);
    assert(0 <= g * k_len + p < mg * k_len) by (nonlinear_arith)
        requires
            0 <= g < mg,
            0 <= p < k_len,
    ;
    lemma_row_major_in_bounds(i % th, g * k_len + p, th, mg * k_len);
    assert(th * (mg * k_len) == m_block * k_len) by (nonlinear_arith)
        requires
            m_block == th * mg,
    ;
}

/// Packs rows `i_start..i_start + m_block` and reduction indices
/// `k_start..k_start + k_block` of the row-major `A` (row length `k_total`)
/// into `a_panel`: `A[i_start + i, k_start + p]` goes to
/// `packed_a_offset(i, p, th, k_block)`, so that the `th` values one
/// microkernel step needs are contiguous. The rest of `a_panel` is unchanged.
pub fn pack_a_panel<T: Copy>(
    a: &[T],
    a_panel: &mut [T],
    i_start: usize,
    k_start: usize,
    m_block: usize,
    k_block: usize,
    k_total: usize,
    th: usize,
)
    requires
        th >= 1,
        m_block % th == 0,
        (i_start + m_block) * k_total <= a@.len(),
        k_start + k_block <= k_total,
        m_block * k_block <= old(a_panel)@.len(),
    ensures
        final(a_panel)@.len() == old(a_panel)@.len(),
        forall|i: int, p: int|
            0 <= i < m_block && 0 <= p < k_block ==> #[trigger] final(a_panel)@[packed_a_offset(
                i,
                p,
                th as int,
                k_block as int,
            )] == a@[(i_start + i) * k_total + k_start + p],
        forall|t: int|
            m_block * k_block <= t < old(a_panel)@.len() ==> #[trigger] final(a_panel)@[t] == old(
                a_panel,
            )@[t],
{
    let ghost orig = a_panel@;
    let panel_len = a_panel.len();
    let a_len = a.len();
    let mut i: usize = 0;
    while i < m_block
        invariant
            th >= 1,
            m_block % th == 0,
            (i_start + m_block) * k_total <= a@.len(),
            k_start + k_block <= k_total,
            m_block * k_block <= orig.len(),
            a_panel@.len() == orig.len(),
            panel_len == orig.len(),
            a_len == a@.len(),
            i <= m_block,
            forall|i2: int, p2: int|
                0 <= i2 < i && 0 <= p2 < k_block ==> #[trigger] a_panel@[packed_a_offset(
                    i2,
                    p2,
                    th as int,
                    k_block as int,
                )] == a@[(i_start + i2) * k_total + k_start + p2],
            forall|t: int|
                m_block * k_block <= t < orig.len() ==> #[trigger] a_panel@[t] == orig[t],
        decreases m_block - i,
    {
        let mut p: usize = 0;
        while p < k_block
            invariant
                th >= 1,
                m_block % th == 0,
                (i_start + m_block) * k_total <= a@.len(),
                k_start + k_block <= k_total,
                m_block * k_block <= orig.len(),
                a_panel@.len() == orig.len(),
                panel_len == orig.len(),
                a_len == a@.len(),
            a_len == a@.len(),
                i < m_block,
                p <= k_block,
                forall|i2: int, p2: int|
                    0 <= i2 < i && 0 <= p2 < k_block ==> #[trigger] a_panel@[packed_a_offset(
                        i2,
                        p2,
                        th as int,
                        k_block as int,
                    )] == a@[(i_start + i2) * k_total + k_start + p2],
                forall|p2: int|
                    0 <= p2 < p ==> #[trigger] a_panel@[packed_a_offset(
                        i as int,
                        p2,
                        th as int,
                        k_block as int,
                    )] == a@[(i_start + i) * k_total + k_start + p2],
                forall|t: int|
                    m_block * k_block <= t < orig.len() ==> #[trigger] a_panel@[t] == orig[t],
            decreases k_block - p,
        {
            proof {
                lemma_packed_a_offset(i as int, p as int, th as int, k_block as int, m_block as int);
                lemma_fundamental_div_mod(i as int, th as int);
                let g = i as int / th as int;
                let gp = g * k_block + p;
                assert(0 <= gp <= gp * th) by (nonlinear_arith)
                    requires
                        th >= 1,
                        0 <= g,
                        0 <= p,
                        0 <= k_block,
                        gp == g * k_block + p,
                ;
                assert(0 <= g * k_block <= gp) by (nonlinear_arith)
                    requires
                        0 <= g,
                        0 <= p,
                        0 <= k_block,
                        gp == g * k_block + p,
                ;
                assert(i_start + m_block <= (i_start + m_block) * k_total) by (nonlinear_arith)
                    requires
                        k_total >= 1,
                        i_start + m_block >= 0,
                ;
                assert((i_start + i) * k_total + k_start + p < (i_start + m_block) * k_total)
                    by (nonlinear_arith)
                    requires
                        i < m_block,
                        k_start + p < k_total,
                ;
                assert(0 <= (i_start + i) * k_total) by (nonlinear_arith);
            }
            let dst = ((i / th) * k_block + p) * th + i % th;
            let src = (i_start + i) * k_total + k_start + p;
            let ghost before = a_panel@;
            a_panel[dst] = a[src];
            proof {
                assert forall|i2: int, p2: int|
                    0 <= i2 < i && 0 <= p2 < k_block implies #[trigger] a_panel@[packed_a_offset(
                        i2,
                        p2,
                        th as int,
                        k_block as int,
                    )] == a@[(i_start + i2) * k_total + k_start + p2] by {
                    lemma_packed_distinct(i2, p2, i as int, p as int, th as int, k_block as int, m_block as int);
                    lemma_packed_a_offset(i2, p2, th as int, k_block as int, m_block as int);
                    assert(a_panel@[packed_a_offset(i2, p2, th as int, k_block as int)]
                        == before[packed_a_offset(i2, p2, th as int, k_block as int)]);
                }
                assert forall|p2: int| 0 <= p2 <= p implies #[trigger] a_panel@[packed_a_offset(
                    i as int,
                    p2,
                    th as int,
                    k_block as int,
                )] == a@[(i_start + i) * k_total + k_start + p2] by {
                    if p2 < p {
                        lemma_packed_distinct(i as int, p2, i as int, p as int, th as int, k_block as int, m_block as int);
                        lemma_packed_a_offset(i as int, p2, th as int, k_block as int, m_block as int);
                        assert(a_panel@[packed_a_offset(i as int, p2, th as int, k_block as int)]
                            == before[packed_a_offset(i as int, p2, th as int, k_block as int)]);
                    }
                }
            }
            p = p + 1;
        }
        i = i + 1;
    }
}

/// Packs columns `j_start..j_start + vw` of B, read from its transpose `bt`
/// (row length `k_total`), over reduction indices `k_start..k_start + k_block`
/// into `b_pack`: `B[k_start + p, j_start + c]`, which is
/// `bt[(j_start + c) * k_total + k_start + p]`, goes to
/// `packed_b_offset(c, p, vw)`. The rest of `b_pack` is unchanged.
pub fn pack_b_panel<T: Copy>(
    bt: &[T],
    b_pack: &mut [T],
    j_start: usize,
    k_start: usize,
    k_block: usize,
    k_total: usize,
    vw: usize,
)
    requires
        vw >= 1,
        (j_start + vw) * k_total <= bt@.len(),
        k_start + k_block <= k_total,
        k_block * vw <= old(b_pack)@.len(),
    ensures
        final(b_pack)@.len() == old(b_pack)@.len(),
        forall|c: int, p: int|
            0 <= c < vw && 0 <= p < k_block ==> #[trigger] final(b_pack)@[packed_b_offset(
                c,
                p,
                vw as int,
            )] == bt@[(j_start + c) * k_total + k_start + p],
        forall|t: int|
            k_block * vw <= t < old(b_pack)@.len() ==> #[trigger] final(b_pack)@[t] == old(
                b_pack,
            )@[t],
{
    let ghost orig = b_pack@;
    let pack_len = b_pack.len();
    let bt_len = bt.len();
    let mut p: usize = 0;
    while p < k_block
        invariant
            vw >= 1,
            (j_start + vw) * k_total <= bt@.len(),
            k_start + k_block <= k_total,
            k_block * vw <= orig.len(),
            b_pack@.len() == orig.len(),
            pack_len == orig.len(),
            bt_len == bt@.len(),
            p <= k_block,
            forall|c2: int, p2: int|
                0 <= c2 < vw && 0 <= p2 < p ==> #[trigger] b_pack@[packed_b_offset(
                    c2,
                    p2,
                    vw as int,
                )] == bt@[(j_start + c2) * k_total + k_start + p2],
            forall|t: int| k_block * vw <= t < orig.len() ==> #[trigger] b_pack@[t] == orig[t],
        decreases k_block - p,
    {
        let mut c: usize = 0;
        while c < vw
            invariant
                vw >= 1,
                (j_start + vw) * k_total <= bt@.len(),
                k_start + k_block <= k_total,
                k_block * vw <= orig.len(),
                b_pack@.len() == orig.len(),
                pack_len == orig.len(),
                bt_len == bt@.len(),
                p < k_block,
                c <= vw,
                forall|c2: int, p2: int|
                    0 <= c2 < vw && 0 <= p2 < p ==> #[trigger] b_pack@[packed_b_offset(
                        c2,
                        p2,
                        vw as int,
                    )] == bt@[(j_start + c2) * k_total + k_start + p2],
                forall|c2: int|
                    0 <= c2 < c ==> #[trigger] b_pack@[packed_b_offset(c2, p as int, vw as int)]
                        == bt@[(j_start + c2) * k_total + k_start + p],
                forall|t: int| k_block * vw <= t < orig.len() ==> #[trigger] b_pack@[t] == orig[t],
            decreases vw - c,
        {
            proof {
                lemma_row_major_in_bounds(c as int, p as int, vw as int, k_block as int);
                assert(k_block * vw == vw * k_block) by (nonlinear_arith);
                assert(j_start + vw <= (j_start + vw) * k_total) by (nonlinear_arith)
                    requires
                        k_total >= 1,
                        j_start + vw >= 0,
                ;
                assert((j_start + c) * k_total + k_start + p < (j_start + vw) * k_total)
                    by (nonlinear_arith)
                    requires
                        c < vw,
                        k_start + p < k_total,
                ;
                assert(0 <= (j_start + c) * k_total) by (nonlinear_arith);
            }
            let dst = p * vw + c;
            let src = (j_start + c) * k_total + k_start + p;
            let ghost before = b_pack@;
            b_pack[dst] = bt[src];
            proof {
                assert forall|c2: int, p2: int|
                    0 <= c2 < vw && 0 <= p2 < p implies #[trigger] b_pack@[packed_b_offset(
                        c2,
                        p2,
                        vw as int,
                    )] == bt@[(j_start + c2) * k_total + k_start + p2] by {
                    lemma_row_major_in_bounds(c2, p2, vw as int, k_block as int);
                    if p2 * vw + c2 == dst as int {
                        lemma_row_major_unique(c2, p2, c as int, p as int, vw as int);
                    }
                    assert(b_pack@[packed_b_offset(c2, p2, vw as int)] == before[packed_b_offset(
                        c2,
                        p2,
                        vw as int,
                    )]);
                }
                assert forall|c2: int| 0 <= c2 <= c implies #[trigger] b_pack@[packed_b_offset(
                    c2,
                    p as int,
                    vw as int,
                )] == bt@[(j_start + c2) * k_total + k_start + p] by {
                    if c2 < c {
                        lemma_row_major_in_bounds(c2, p as int, vw as int, k_block as int);
                        if p * vw + c2 == dst as int {
                            lemma_row_major_unique(c2, p as int, c as int, p as int, vw as int);
                        }
                        assert(b_pack@[packed_b_offset(c2, p as int, vw as int)]
                            == before[packed_b_offset(c2, p as int, vw as int)]);
                    }
                }
            }
            c = c + 1;
        }
        p = p + 1;
    }
}

/// Distinct (row, reduction index) pairs of a block have distinct packed offsets.
proof fn lemma_packed_distinct(i1: int, p1: int, i2: int, p2: int, th: int, k_len: int, m_block: int)
    requires
        th > 0,
        0 <= i1 < m_block,
        0 <= i2 < m_block,
        0 <= p1 < k_len,
        0 <= p2 < k_len,
        m_block % th == 0,
        i1 != i2 || p1 != p2,
    ensures
        packed_a_offset(i1, p1, th, k_len) != packed_a_offset(i2, p2, th, k_len),
{
    lemma_packed_a_offset(i1, p1, th, k_len, m_block);
    lemma_packed_a_offset(i2, p2, th, k_len, m_block);
    if packed_a_offset(i1, p1, th, k_len) == packed_a_offset(i2, p2, th, k_len) {
        lemma_row_major_unique(i1 % th, (i1 / th) * k_len + p1, i2 % th, (i2 / th) * k_len + p2, th);
        lemma_row_major_unique(p1, i1 / th, p2, i2 / th, k_len);
        lemma_fundamental_div_mod(i1, th);
        lemma_fundamental_div_mod(i2, th);
    }
}

} // verus!
