use vstd::prelude::*;

use crate::image_processor::{chan, RGB};
use crate::CompressError;

verus! {

/// Largest number of rows, and of columns, of a matrix.
pub const MAX_SIDE: usize = 65535;

/// Largest channel value of a matrix cell (255 squared).
pub const MAX_CELL: u64 = 65025;

/// A value with an additive identity.
pub trait Zero: Sized {
    spec fn is_zero(&self) -> bool;

    fn zero() -> (res: Self)
        ensures
            res.is_zero(),
    ;
}

impl Zero for RGB<u64> {
    open spec fn is_zero(&self) -> bool {
        self.r == 0 && self.g == 0 && self.b == 0
    }

    fn zero() -> (res: Self) {
        RGB::new(0, 0, 0)
    }
}

/// Sum of channel `k` over columns `c0..c1` of one row.
pub open spec fn row_sum(row: Seq<RGB<u64>>, k: int, c0: int, c1: int) -> int
    decreases c1 - c0,
{
    if c1 <= c0 {
        0
    } else {
        row_sum(row, k, c0, c1 - 1) + chan(row[c1 - 1], k)
    }
}

/// Sum of channel `k` over rows `r0..r1` and columns `c0..c1` of a grid.
pub open spec fn region_sum(g: Seq<Seq<RGB<u64>>>, k: int, r0: int, r1: int, c0: int, c1: int) -> int
    decreases r1 - r0,
{
    if r1 <= r0 {
        0
    } else {
        region_sum(g, k, r0, r1 - 1, c0, c1) + row_sum(g[r1 - 1], k, c0, c1)
    }
}

/// The rows of a matrix, as sequences.
pub open spec fn grid_of(m: Seq<Vec<RGB<u64>>>) -> Seq<Seq<RGB<u64>>> {
    Seq::new(m.len(), |i: int| m[i]@)
}

/// Every row of `g` has exactly `w` cells.
pub open spec fn is_rectangular(g: Seq<Seq<RGB<u64>>>, w: int) -> bool {
    forall|i: int| 0 <= i < g.len() ==> #[trigger] g[i].len() == w
}

/// The grid is non-empty, its first row is non-empty, and all rows have one length.
pub open spec fn valid_dimensions(g: Seq<Seq<RGB<u64>>>) -> bool {
    g.len() > 0 && g[0].len() > 0 && is_rectangular(g, g[0].len() as int)
}

/// Sizes stay within `MAX_SIDE` and every channel within `max`.
pub open spec fn cells_bounded(g: Seq<Seq<RGB<u64>>>, max: int) -> bool {
    &&& g.len() <= MAX_SIDE
    &&& forall|i: int| 0 <= i < g.len() ==> #[trigger] g[i].len() <= MAX_SIDE
    &&& forall|i: int, j: int, k: int|
        0 <= i < g.len() && 0 <= j < g[i].len() && 0 <= k < 3 ==> 0 <= #[trigger] chan(g[i][j], k) <= max
}

pub proof fn lemma_row_sum_split(row: Seq<RGB<u64>>, k: int, c0: int, c1: int, c2: int)
    requires
        c0 <= c1 <= c2,
    ensures
        row_sum(row, k, c0, c2) == row_sum(row, k, c0, c1) + row_sum(row, k, c1, c2),
    decreases c2 - c1,
{
    if c2 > c1 {
        lemma_row_sum_split(row, k, c0, c1, c2 - 1);
    }
}

/// Splitting a rectangle by a row boundary splits its sum.
pub proof fn lemma_region_split_rows(g: Seq<Seq<RGB<u64>>>, k: int, r0: int, r1: int, r2: int, c0: int, c1: int)
    requires
        r0 <= r1 <= r2,
    ensures
        region_sum(g, k, r0, r2, c0, c1) == region_sum(g, k, r0, r1, c0, c1) + region_sum(g, k, r1, r2, c0, c1),
    decreases r2 - r1,
{
    if r2 > r1 {
        lemma_region_split_rows(g, k, r0, r1, r2 - 1, c0, c1);
    }
}

/// Splitting a rectangle by a column boundary splits its sum.
pub proof fn lemma_region_split_cols(g: Seq<Seq<RGB<u64>>>, k: int, r0: int, r1: int, c0: int, c1: int, c2: int)
    requires
        c0 <= c1 <= c2,
    ensures
        region_sum(g, k, r0, r1, c0, c2) == region_sum(g, k, r0, r1, c0, c1) + region_sum(g, k, r0, r1, c1, c2),
    decreases r1 - r0,
{
    if r1 > r0 {
        lemma_region_split_cols(g, k, r0, r1 - 1, c0, c1, c2);
        lemma_row_sum_split(g[r1 - 1], k, c0, c1, c2);
    }
}

proof fn lemma_row_sum_bounds(row: Seq<RGB<u64>>, k: int, c0: int, c1: int, max: int)
    requires
        0 <= c0 <= c1 <= row.len(),
        0 <= k < 3,
        forall|j: int| 0 <= j < row.len() ==> 0 <= #[trigger] chan(row[j], k) <= max,
    ensures
        0 <= row_sum(row, k, c0, c1) <= (c1 - c0) * max,
    decreases c1 - c0,
{
    if c1 > c0 {
        lemma_row_sum_bounds(row, k, c0, c1 - 1, max);
        assert((c1 - 1 - c0) * max + max == (c1 - c0) * max) by (nonlinear_arith);
    } else {
        assert((c1 - c0) * max == 0) by (nonlinear_arith)
            requires
                c1 == c0,
        ;
    }
}

/// A rectangle's sum lies between zero and its area times the largest cell.
pub proof fn lemma_region_sum_bounds(g: Seq<Seq<RGB<u64>>>, k: int, r0: int, r1: int, c0: int, c1: int, max: int)
    requires
        0 <= r0 <= r1 <= g.len(),
        0 <= c0 <= c1,
        0 <= k < 3,
        forall|i: int| r0 <= i < r1 ==> c1 <= #[trigger] g[i].len(),
        cells_bounded(g, max),
    ensures
        0 <= region_sum(g, k, r0, r1, c0, c1) <= (r1 - r0) * (c1 - c0) * max,
    decreases r1 - r0,
{
    if r1 > r0 {
        lemma_region_sum_bounds(g, k, r0, r1 - 1, c0, c1, max);
        let row = g[r1 - 1];
        assert forall|j: int| 0 <= j < row.len() implies 0 <= #[trigger] chan(row[j], k) <= max by {
            assert(0 <= chan(g[r1 - 1][j], k) <= max);
        }
        lemma_row_sum_bounds(row, k, c0, c1, max);
        assert((r1 - 1 - r0) * (c1 - c0) * max + (c1 - c0) * max == (r1 - r0) * (c1 - c0) * max)
            by (nonlinear_arith);
    } else {
        assert((r1 - r0) * (c1 - c0) * max == 0) by (nonlinear_arith)
            requires
                r1 == r0,
        ;
    }
}

/// A rectangle with no columns sums to zero.
pub proof fn lemma_region_sum_no_cols(g: Seq<Seq<RGB<u64>>>, k: int, r0: int, r1: int, c: int)
    ensures
        region_sum(g, k, r0, r1, c, c) == 0,
    decreases r1 - r0,
{
    if r1 > r0 {
        lemma_region_sum_no_cols(g, k, r0, r1 - 1, c);
    }
}

/// Sum of `f(r, c)` times channel `k` over columns `c0..c1` of row `r`.
pub open spec fn row_wsum(row: Seq<RGB<u64>>, k: int, r: int, f: spec_fn(int, int) -> int, c0: int, c1: int) -> int
    decreases c1 - c0,
{
    if c1 <= c0 {
        0
    } else {
        row_wsum(row, k, r, f, c0, c1 - 1) + f(r, c1 - 1) * chan(row[c1 - 1], k)
    }
}

/// Sum of `f(r, c)` times channel `k` over rows `r0..r1` and columns `c0..c1`.
pub open spec fn wsum(g: Seq<Seq<RGB<u64>>>, k: int, f: spec_fn(int, int) -> int, r0: int, r1: int, c0: int, c1: int) -> int
    decreases r1 - r0,
{
    if r1 <= r0 {
        0
    } else {
        wsum(g, k, f, r0, r1 - 1, c0, c1) + row_wsum(g[r1 - 1], k, r1 - 1, f, c0, c1)
    }
}

proof fn lemma_row_wsum_linear(
    row: Seq<RGB<u64>>,
    k: int,
    r: int,
    f: spec_fn(int, int) -> int,
    f1: spec_fn(int, int) -> int,
    f2: spec_fn(int, int) -> int,
    a: int,
    c0: int,
    c1: int,
)
    requires
        forall|c: int| c0 <= c < c1 ==> #[trigger] f(r, c) == a * f1(r, c) + f2(r, c),
    ensures
        row_wsum(row, k, r, f, c0, c1) == a * row_wsum(row, k, r, f1, c0, c1) + row_wsum(row, k, r, f2, c0, c1),
    decreases c1 - c0,
{
    if c1 > c0 {
        lemma_row_wsum_linear(row, k, r, f, f1, f2, a, c0, c1 - 1);
        let v = chan(row[c1 - 1], k);
        let x1 = f1(r, c1 - 1);
        let x2 = f2(r, c1 - 1);
        let s1 = row_wsum(row, k, r, f1, c0, c1 - 1);
        assert((a * x1 + x2) * v == a * (x1 * v) + x2 * v) by (nonlinear_arith);
        assert(a * s1 + a * (x1 * v) == a * (s1 + x1 * v)) by (nonlinear_arith);
    } else {
        assert(a * 0 == 0) by (nonlinear_arith);
    }
}

/// Weighted sums are linear in the weight.
pub proof fn lemma_wsum_linear(
    g: Seq<Seq<RGB<u64>>>,
    k: int,
    f: spec_fn(int, int) -> int,
    f1: spec_fn(int, int) -> int,
    f2: spec_fn(int, int) -> int,
    a: int,
    r0: int,
    r1: int,
    c0: int,
    c1: int,
)
    requires
        forall|r: int, c: int| r0 <= r < r1 && c0 <= c < c1 ==> #[trigger] f(r, c) == a * f1(r, c) + f2(r, c),
    ensures
        wsum(g, k, f, r0, r1, c0, c1) == a * wsum(g, k, f1, r0, r1, c0, c1) + wsum(g, k, f2, r0, r1, c0, c1),
    decreases r1 - r0,
{
    if r1 > r0 {
        lemma_wsum_linear(g, k, f, f1, f2, a, r0, r1 - 1, c0, c1);
        lemma_row_wsum_linear(g[r1 - 1], k, r1 - 1, f, f1, f2, a, c0, c1);
        let s1 = wsum(g, k, f1, r0, r1 - 1, c0, c1);
        let t1 = row_wsum(g[r1 - 1], k, r1 - 1, f1, c0, c1);
        assert(a * s1 + a * t1 == a * (s1 + t1)) by (nonlinear_arith);
    } else {
        assert(a * 0 == 0) by (nonlinear_arith);
    }
}

proof fn lemma_row_wsum_const(row: Seq<RGB<u64>>, k: int, r: int, f: spec_fn(int, int) -> int, one: bool, c0: int, c1: int)
    requires
        forall|c: int| c0 <= c < c1 ==> #[trigger] f(r, c) == if one {
            1int
        } else {
            0int
        },
    ensures
        row_wsum(row, k, r, f, c0, c1) == if one {
            row_sum(row, k, c0, c1)
        } else {
            0
        },
    decreases c1 - c0,
{
    if c1 > c0 {
        lemma_row_wsum_const(row, k, r, f, one, c0, c1 - 1);
    }
}

/// A weight of one everywhere gives the plain sum; a weight of zero gives zero.
pub proof fn lemma_wsum_const(g: Seq<Seq<RGB<u64>>>, k: int, f: spec_fn(int, int) -> int, one: bool, r0: int, r1: int, c0: int, c1: int)
    requires
        forall|r: int, c: int| r0 <= r < r1 && c0 <= c < c1 ==> #[trigger] f(r, c) == if one {
            1int
        } else {
            0int
        },
    ensures
        wsum(g, k, f, r0, r1, c0, c1) == if one {
            region_sum(g, k, r0, r1, c0, c1)
        } else {
            0
        },
    decreases r1 - r0,
{
    if r1 > r0 {
        lemma_wsum_const(g, k, f, one, r0, r1 - 1, c0, c1);
        lemma_row_wsum_const(g[r1 - 1], k, r1 - 1, f, one, c0, c1);
    }
}

proof fn lemma_wsum_split_rows(g: Seq<Seq<RGB<u64>>>, k: int, f: spec_fn(int, int) -> int, r0: int, r1: int, r2: int, c0: int, c1: int)
    requires
        r0 <= r1 <= r2,
    ensures
        wsum(g, k, f, r0, r2, c0, c1) == wsum(g, k, f, r0, r1, c0, c1) + wsum(g, k, f, r1, r2, c0, c1),
    decreases r2 - r1,
{
    if r2 > r1 {
        lemma_wsum_split_rows(g, k, f, r0, r1, r2 - 1, c0, c1);
    }
}

proof fn lemma_row_wsum_split(row: Seq<RGB<u64>>, k: int, r: int, f: spec_fn(int, int) -> int, c0: int, c1: int, c2: int)
    requires
        c0 <= c1 <= c2,
    ensures
        row_wsum(row, k, r, f, c0, c2) == row_wsum(row, k, r, f, c0, c1) + row_wsum(row, k, r, f, c1, c2),
    decreases c2 - c1,
{
    if c2 > c1 {
        lemma_row_wsum_split(row, k, r, f, c0, c1, c2 - 1);
    }
}

proof fn lemma_wsum_split_cols(g: Seq<Seq<RGB<u64>>>, k: int, f: spec_fn(int, int) -> int, r0: int, r1: int, c0: int, c1: int, c2: int)
    requires
        c0 <= c1 <= c2,
    ensures
        wsum(g, k, f, r0, r1, c0, c2) == wsum(g, k, f, r0, r1, c0, c1) + wsum(g, k, f, r0, r1, c1, c2),
    decreases r1 - r0,
{
    if r1 > r0 {
        lemma_wsum_split_cols(g, k, f, r0, r1 - 1, c0, c1, c2);
        lemma_row_wsum_split(g[r1 - 1], k, r1 - 1, f, c0, c1, c2);
    }
}

/// Weighting by the indicator of a sub-rectangle `q0..q1` by `d0..d1` of the
/// region gives the sub-rectangle's sum.
pub proof fn lemma_wsum_indicator(
    g: Seq<Seq<RGB<u64>>>,
    k: int,
    f: spec_fn(int, int) -> int,
    r0: int,
    r1: int,
    c0: int,
    c1: int,
    q0: int,
    q1: int,
    d0: int,
    d1: int,
)
    requires
        r0 <= q0 <= q1 <= r1,
        c0 <= d0 <= d1 <= c1,
        forall|r: int, c: int| r0 <= r < r1 && c0 <= c < c1 ==> #[trigger] f(r, c) == if q0 <= r < q1 && d0 <= c < d1 {
            1int
        } else {
            0int
        },
    ensures
        wsum(g, k, f, r0, r1, c0, c1) == region_sum(g, k, q0, q1, d0, d1),
{
    lemma_wsum_split_rows(g, k, f, r0, q0, r1, c0, c1);
    lemma_wsum_split_rows(g, k, f, q0, q1, r1, c0, c1);
    lemma_wsum_const(g, k, f, false, r0, q0, c0, c1);
    lemma_wsum_const(g, k, f, false, q1, r1, c0, c1);
    lemma_wsum_split_cols(g, k, f, q0, q1, c0, d0, c1);
    lemma_wsum_split_cols(g, k, f, q0, q1, d0, d1, c1);
    lemma_wsum_const(g, k, f, false, q0, q1, c0, d0);
    lemma_wsum_const(g, k, f, false, q0, q1, d1, c1);
    lemma_wsum_const(g, k, f, true, q0, q1, d0, d1);
}

/// A summed-area table: cell `(i, j)` holds the sum of the cells above and to
/// the left of `(i, j)` in the source matrix.
pub struct PrefixSumMatrix {
    height: usize,
    width: usize,
    data: Vec<Vec<RGB<u64>>>,
    source: Ghost<Seq<Seq<RGB<u64>>>>,
    max_cell: Ghost<int>,
}

impl PrefixSumMatrix {
    /// The matrix the table was built from.
    pub closed spec fn grid(&self) -> Seq<Seq<RGB<u64>>> {
        self.source@
    }

    pub closed spec fn spec_height(&self) -> nat {
        self.height as nat
    }

    pub closed spec fn spec_width(&self) -> nat {
        self.width as nat
    }

    /// The table sums the grid, and the grid is a bounded non-empty rectangle.
    pub closed spec fn wf(&self) -> bool {
        &&& valid_dimensions(self.source@)
        &&& self.height == self.source@.len()
        &&& self.width == self.source@[0].len()
        &&& 0 <= self.max_cell@ <= MAX_CELL
        &&& cells_bounded(self.source@, self.max_cell@)
        &&& self.data@.len() == self.height + 1
        &&& forall|i: int| 0 <= i <= self.height ==> #[trigger] self.data@[i]@.len() == self.width + 1
        &&& forall|i: int, j: int, k: int|
            0 <= i <= self.height && 0 <= j <= self.width && 0 <= k < 3 ==> #[trigger] chan(
                self.data@[i]@[j],
                k,
            ) == region_sum(self.source@, k, 0, i, 0, j)
    }

    pub proof fn lemma_wf(&self)
        requires
            self.wf(),
        ensures
            valid_dimensions(self.grid()),
            self.spec_height() == self.grid().len(),
            self.spec_width() == self.grid()[0].len(),
            self.spec_height() <= MAX_SIDE,
            self.spec_width() <= MAX_SIDE,
    {
    }

    /// Builds the table. Fails when the matrix is empty, has an empty first
    /// row, or has rows of unequal length.
    pub fn new(matrix: &Vec<Vec<RGB<u64>>>) -> (res: Result<Self, CompressError>)
        requires
            cells_bounded(grid_of(matrix@), MAX_CELL as int),
        ensures
            match res {
                Ok(t) => valid_dimensions(grid_of(matrix@)) && t.wf() && t.grid() == grid_of(matrix@),
                Err(e) => !valid_dimensions(grid_of(matrix@)) && e == CompressError::InvalidDimensions,
            },
    {
        let ghost g = grid_of(matrix@);
        let height = matrix.len();
        if height == 0 {
            return Err(CompressError::InvalidDimensions);
        }
        let width = matrix[0].len();
        if width == 0 {
            return Err(CompressError::InvalidDimensions);
        }
        let mut r: usize = 0;
        while r < height
            invariant
                g == grid_of(matrix@),
                height == g.len(),
                width == g[0].len(),
                r <= height,
                forall|i: int| 0 <= i < r ==> #[trigger] g[i].len() == width,
            decreases height - r,
        {
            if matrix[r].len() != width {
                assert(g[r as int].len() != g[0].len());
                return Err(CompressError::InvalidDimensions);
            }
            r += 1;
        }
        assert(valid_dimensions(g));
        assert(width <= MAX_SIDE) by {
            assert(g[0].len() <= MAX_SIDE);
        }
        let mut first: Vec<RGB<u64>> = Vec::new();
        let mut j: usize = 0;
        while j <= width
            invariant
                j <= width + 1,
                width <= MAX_SIDE,
                first@.len() == j,
                forall|c: int, k: int| 0 <= c < j && 0 <= k < 3 ==> #[trigger] chan(first@[c], k) == 0,
            decreases width + 1 - j,
        {
            first.push(RGB::zero());
            j += 1;
        }
        let mut data: Vec<Vec<RGB<u64>>> = Vec::new();
        data.push(first);
        let mut i: usize = 0;
        while i < height
            invariant
                g == grid_of(matrix@),
                valid_dimensions(g),
                cells_bounded(g, MAX_CELL as int),
                height == g.len(),
                width == g[0].len(),
                width <= MAX_SIDE,
                i <= height,
                data@.len() == i + 1,
                forall|a: int| 0 <= a <= i ==> #[trigger] data@[a]@.len() == width + 1,
                forall|a: int, c: int, k: int|
                    0 <= a <= i && 0 <= c <= width && 0 <= k < 3 ==> #[trigger] chan(data@[a]@[c], k)
                        == region_sum(g, k, 0, a, 0, c),
            decreases height - i,
        {
            let mut cur: Vec<RGB<u64>> = Vec::new();
            cur.push(RGB::zero());
            proof {
                assert forall|k: int| 0 <= k < 3 implies #[trigger] region_sum(g, k, 0, i + 1, 0, 0) == 0 by {
                    lemma_region_sum_no_cols(g, k, 0, i + 1, 0);
                }
            }
            let mut j: usize = 0;
            while j < width
                invariant
                    g == grid_of(matrix@),
                    valid_dimensions(g),
                    cells_bounded(g, MAX_CELL as int),
                    height == g.len(),
                    width == g[0].len(),
                    width <= MAX_SIDE,
                    i < height,
                    j <= width,
                    data@.len() == i + 1,
                    forall|a: int| 0 <= a <= i ==> #[trigger] data@[a]@.len() == width + 1,
                    forall|a: int, c: int, k: int|
                        0 <= a <= i && 0 <= c <= width && 0 <= k < 3 ==> #[trigger] chan(data@[a]@[c], k)
                            == region_sum(g, k, 0, a, 0, c),
                    cur@.len() == j + 1,
                    forall|c: int, k: int|
                        0 <= c <= j && 0 <= k < 3 ==> #[trigger] chan(cur@[c], k) == region_sum(
                            g,
                            k,
                            0,
                            i + 1,
                            0,
                            c,
                        ),
                decreases width - j,
            {
                let above = &data[i];
                let up_right = above[j + 1];
                let up_left = above[j];
                let left = cur[j];
                assert(g[i as int] == matrix@[i as int]@ && g[i as int].len() == width);
                let cell = matrix[i][j];
                proof {
                    assert forall|k: int| #![trigger chan(up_right, k)] 0 <= k < 3 implies {
                        let col = region_sum(g, k, 0, i as int, j as int, j + 1);
                        &&& chan(up_right, k) - chan(up_left, k) == col
                        &&& 0 <= col <= MAX_CELL * MAX_SIDE
                        &&& 0 <= chan(left, k) <= MAX_SIDE * MAX_SIDE * MAX_CELL
                        &&& chan(up_right, k) - chan(up_left, k) + chan(left, k) + chan(cell, k)
                            == region_sum(g, k, 0, i + 1, 0, j + 1)
                        &&& 0 <= region_sum(g, k, 0, i + 1, 0, j + 1) <= MAX_SIDE * MAX_SIDE * MAX_CELL
                    } by {
                        assert(chan(up_right, k) == region_sum(g, k, 0, i as int, 0, j + 1));
                        assert(chan(up_left, k) == region_sum(g, k, 0, i as int, 0, j as int));
                        assert(chan(left, k) == region_sum(g, k, 0, i + 1, 0, j as int));
                        lemma_region_split_cols(g, k, 0, i as int, 0, j as int, j + 1);
                        assert forall|a: int| 0 <= a < i + 1 implies j + 1 <= #[trigger] g[a].len() by {
                            assert(g[a].len() == width);
                        }
                        lemma_region_sum_bounds(g, k, 0, i as int, j as int, j + 1, MAX_CELL as int);
                        lemma_region_sum_bounds(g, k, 0, i + 1, 0, j as int, MAX_CELL as int);
                        lemma_region_sum_bounds(g, k, 0, i + 1, 0, j + 1, MAX_CELL as int);
                        assert((i + 1) * (j + 1) <= MAX_SIDE * MAX_SIDE) by (nonlinear_arith)
                            requires
                                i + 1 <= MAX_SIDE,
                                j + 1 <= MAX_SIDE,
                        ;
                        assert((i + 1) * (j + 1) * MAX_CELL <= MAX_SIDE * MAX_SIDE * MAX_CELL)
                            by (nonlinear_arith)
                            requires
                                (i + 1) * (j + 1) <= MAX_SIDE * MAX_SIDE,
                        ;
                        assert((i + 1) * (j as int) * MAX_CELL <= MAX_SIDE * MAX_SIDE * MAX_CELL)
                            by (nonlinear_arith)
                            requires
                                i + 1 <= MAX_SIDE,
                                j <= MAX_SIDE,
                        ;
                        assert((i as int) * 1 * MAX_CELL <= MAX_CELL * MAX_SIDE) by (nonlinear_arith)
                            requires
                                i <= MAX_SIDE,
                        ;
                        assert(0 <= chan(g[i as int][j as int], k) <= MAX_CELL);
                    }
                    assert(chan(up_right, 0) >= 0 && chan(up_right, 1) >= 0 && chan(up_right, 2) >= 0);
                }
                let next = RGB::new(
                    up_right.r - up_left.r + left.r + cell.r,
                    up_right.g - up_left.g + left.g + cell.g,
                    up_right.b - up_left.b + left.b + cell.b,
                );
                cur.push(next);
                proof {
                    assert forall|c: int, k: int| 0 <= c <= j + 1 && 0 <= k < 3 implies #[trigger] chan(
                        cur@[c],
                        k,
                    ) == region_sum(g, k, 0, i + 1, 0, c) by {
                        if c == j + 1 {
                            assert(chan(next, k) == chan(up_right, k) - chan(up_left, k) + chan(left, k) + chan(
                                cell,
                                k,
                            ));
                        }
                    }
                }
                j += 1;
            }
            data.push(cur);
            i += 1;
        }
        Ok(PrefixSumMatrix { height, width, data, source: Ghost(g), max_cell: Ghost(MAX_CELL as int) })
    }

    pub fn height(&self) -> (res: usize)
        ensures
            res == self.spec_height(),
    {
        self.height
    }

    pub fn width(&self) -> (res: usize)
        ensures
            res == self.spec_width(),
    {
        self.width
    }

    /// Table cell `(row, col)`: the sum over rows `0..row` and columns `0..col`.
    pub fn get(&self, row: usize, col: usize) -> (res: RGB<u64>)
        requires
            self.wf(),
            row <= self.spec_height(),
            col <= self.spec_width(),
        ensures
            forall|k: int| 0 <= k < 3 ==> #[trigger] chan(res, k) == region_sum(self.grid(), k, 0, row as int, 0, col as int),
    {
        self.data[row][col]
    }

    /// Sum over the inclusive rectangle from `top_left` to `bottom_right`
    /// (each given as `(row, col)`).
    pub fn query_sum(&self, top_left: (usize, usize), bottom_right: (usize, usize)) -> (res: RGB<u64>)
        requires
            self.wf(),
            top_left.0 <= bottom_right.0 < self.spec_height(),
            top_left.1 <= bottom_right.1 < self.spec_width(),
        ensures
            forall|k: int|
                0 <= k < 3 ==> #[trigger] chan(res, k) == region_sum(
                    self.grid(),
                    k,
                    top_left.0 as int,
                    bottom_right.0 + 1,
                    top_left.1 as int,
                    bottom_right.1 + 1,
                ),
    {
        let (x1, y1) = top_left;
        let (x2, y2) = bottom_right;
        let a = self.data[x2 + 1][y2 + 1];
        let b = self.data[x2 + 1][y1];
        let c = self.data[x1][y2 + 1];
        let d = self.data[x1][y1];
        let ghost g = self.source@;
        proof {
            assert forall|k: int| #![trigger chan(a, k)] 0 <= k < 3 implies {
                &&& chan(a, k) - chan(b, k) == region_sum(g, k, 0, x2 + 1, y1 as int, y2 + 1)
                &&& chan(c, k) - chan(d, k) == region_sum(g, k, 0, x1 as int, y1 as int, y2 + 1)
                &&& 0 <= chan(c, k) - chan(d, k) <= chan(a, k) - chan(b, k)
                &&& chan(a, k) - chan(b, k) - (chan(c, k) - chan(d, k)) == region_sum(g, k, x1 as int, x2 + 1, y1 as int, y2 + 1)
            } by {
                lemma_region_split_cols(g, k, 0, x2 + 1, 0, y1 as int, y2 + 1);
                lemma_region_split_cols(g, k, 0, x1 as int, 0, y1 as int, y2 + 1);
                lemma_region_split_rows(g, k, 0, x1 as int, x2 + 1, y1 as int, y2 + 1);
                assert forall|a: int| 0 <= a < g.len() implies y2 + 1 <= #[trigger] g[a].len() by {
                    assert(g[a].len() == g[0].len());
                }
                lemma_region_sum_bounds(g, k, 0, x1 as int, y1 as int, y2 + 1, self.max_cell@);
                lemma_region_sum_bounds(g, k, x1 as int, x2 + 1, y1 as int, y2 + 1, self.max_cell@);
            }
            assert(chan(a, 0) >= 0 && chan(a, 1) >= 0 && chan(a, 2) >= 0);
        }
        RGB::new(
            (a.r - b.r) - (c.r - d.r),
            (a.g - b.g) - (c.g - d.g),
            (a.b - b.b) - (c.b - d.b),
        )
    }
}

} // verus!
