//! Row-major layout and the transpose that lets packing read columns of B as rows.
use vstd::prelude::*;

verus! {

/// The only pair `(i, j)` with `i < rows` that lands on a given position of a
/// row-major matrix with `rows` rows per column-major stripe.
pub proof fn lemma_row_major_unique(i1: int, j1: int, i2: int, j2: int, width: int)
    requires
        0 <= i1 < width,
        0 <= i2 < width,
        0 <= j1,
        0 <= j2,
        j1 * width + i1 == j2 * width + i2,
    ensures
        i1 == i2,
        j1 == j2,
{
    if j1 < j2 {
        assert(j1 * width + width <= j2 * width) by (nonlinear_arith)
            requires j1 < j2, 0 <= width;
    } else if j2 < j1 {
        assert(j2 * width + width <= j1 * width) by (nonlinear_arith)
            requires j2 < j1, 0 <= width;
    }
}

/// A position `j * width + i` with `i < width` and `j < height` lies inside a
/// `height * width` buffer.
pub proof fn lemma_row_major_in_bounds(i: int, j: int, width: int, height: int)
    requires
        0 <= i < width,
        0 <= j < height,
    ensures
        0 <= j * width + i < width * height,
{
    assert(0 <= j * width + i < width * height) by (nonlinear_arith)
        requires 0 <= i < width, 0 <= j < height;
}

/// Transposes a `rows x cols` row-major matrix into a `cols x rows` one:
/// `dst[j * rows + i] = src[i * cols + j]`.
pub fn transpose<T: Copy>(src: &[T], dst: &mut [T], rows: usize, cols: usize)
    requires
        src@.len() == rows * cols,
        old(dst)@.len() == rows * cols,
    ensures
        final(dst)@.len() == rows * cols,
        forall|i: int, j: int|
            0 <= i < rows && 0 <= j < cols ==> #[trigger] final(dst)@[j * rows + i] == src@[i
                * cols + j],
{
    let total = src.len();
    let mut i: usize = 0;
    while i < rows
        invariant
            i <= rows,
            total == rows * cols,
            src@.len() == rows * cols,
            dst@.len() == rows * cols,
            forall|i2: int, j2: int|
                0 <= i2 < i && 0 <= j2 < cols ==> #[trigger] dst@[j2 * rows + i2] == src@[i2
                    * cols + j2],
        decreases rows - i,
    {
        let mut j: usize = 0;
        while j < cols
            invariant
                i < rows,
                j <= cols,
                total == rows * cols,
                src@.len() == rows * cols,
                dst@.len() == rows * cols,
                forall|i2: int, j2: int|
                    0 <= i2 < i && 0 <= j2 < cols ==> #[trigger] dst@[j2 * rows + i2] == src@[i2
                        * cols + j2],
                forall|j2: int| 0 <= j2 < j ==> #[trigger] dst@[j2 * rows + i] == src@[i * cols
                    + j2],
            decreases cols - j,
        {
            proof {
                lemma_row_major_in_bounds(i as int, j as int, rows as int, cols as int);
                lemma_row_major_in_bounds(j as int, i as int, cols as int, rows as int);
            }
            let d = j * rows + i;
            let s = i * cols + j;
            let old_dst = Ghost(dst@);
            dst[d] = src[s];
            proof {
                assert forall|i2: int, j2: int|
                    0 <= i2 < i && 0 <= j2 < cols implies #[trigger] dst@[j2 * rows + i2]
                    == src@[i2 * cols + j2] by {
                    lemma_row_major_in_bounds(i2, j2, rows as int, cols as int);
                    if j2 * rows + i2 == d as int {
                        lemma_row_major_unique(i2, j2, i as int, j as int, rows as int);
                    }
                    assert(dst@[j2 * rows + i2] == old_dst@[j2 * rows + i2]);
                }
                assert forall|j2: int| 0 <= j2 <= j implies #[trigger] dst@[j2 * rows + i]
                    == src@[i * cols + j2] by {
                    lemma_row_major_in_bounds(i as int, j2, rows as int, cols as int);
                    if j2 < j && j2 * rows + i == d as int {
                        lemma_row_major_unique(i as int, j2, i as int, j as int, rows as int);
                    }
                }
            }
            j = j + 1;
        }
        i = i + 1;
    }
}

} // verus!
