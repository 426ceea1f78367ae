use vstd::prelude::*;

use crate::prefix_sum_matrix::{
    cells_bounded, grid_of, is_rectangular, lemma_region_split_cols, lemma_region_split_rows,
    lemma_region_sum_bounds, lemma_wsum_const, lemma_wsum_indicator, lemma_wsum_linear, region_sum,
    row_sum, valid_dimensions, wsum, PrefixSumMatrix, MAX_SIDE,
};
use crate::CompressError;

verus! {

/// An RGB triple of channel values.
#[derive(Debug, Clone, Copy, PartialEq, Eq)]
pub struct RGB<T> {
    pub r: T,
    pub g: T,
    pub b: T,
}

impl<T> RGB<T> {
    pub fn new(r: T, g: T, b: T) -> (res: Self)
        ensures
            res.r == r,
            res.g == g,
            res.b == b,
    {
        RGB { r, g, b }
    }
}

impl RGB<u64> {
    /// Channel-wise product.
    pub(crate) fn comp_prod(&self, other: Self) -> (res: Self)
        requires
            self.r * other.r <= u64::MAX,
            self.g * other.g <= u64::MAX,
            self.b * other.b <= u64::MAX,
        ensures
            res.r == self.r * other.r,
            res.g == self.g * other.g,
            res.b == self.b * other.b,
    {
        RGB::new(self.r * other.r, self.g * other.g, self.b * other.b)
    }
}

/// Channel `k` (0 = red, 1 = green, 2 = blue) of a wide pixel.
pub open spec fn chan(p: RGB<u64>, k: int) -> int {
    if k == 0 {
        p.r as int
    } else if k == 1 {
        p.g as int
    } else {
        p.b as int
    }
}

/// Largest channel value of a source pixel.
pub const MAX_CHANNEL: u64 = 255;

/// A pixel with each channel squared.
pub open spec fn square_pixel(p: RGB<u64>) -> RGB<u64> {
    RGB { r: (p.r * p.r) as u64, g: (p.g * p.g) as u64, b: (p.b * p.b) as u64 }
}

/// The grid with each pixel squared channel by channel.
pub open spec fn squares(g: Seq<Seq<RGB<u64>>>) -> Seq<Seq<RGB<u64>>> {
    Seq::new(g.len(), |i: int| Seq::new(g[i].len(), |j: int| square_pixel(g[i][j])))
}

/// Number of pixels of the inclusive rectangle `tl`..=`br` (each `(row, col)`).
pub open spec fn area(tl: (usize, usize), br: (usize, usize)) -> int {
    (br.0 - tl.0 + 1) * (br.1 - tl.1 + 1)
}

/// Sum of channel `k` over the inclusive rectangle `tl`..=`br`.
pub open spec fn rect_sum(g: Seq<Seq<RGB<u64>>>, k: int, tl: (usize, usize), br: (usize, usize)) -> int {
    region_sum(g, k, tl.0 as int, br.0 + 1, tl.1 as int, br.1 + 1)
}

/// Floor of the mean of channel `k` over the rectangle.
pub open spec fn mean_chan(g: Seq<Seq<RGB<u64>>>, k: int, tl: (usize, usize), br: (usize, usize)) -> int {
    rect_sum(g, k, tl, br) / area(tl, br)
}

/// `E[X^2] - E[X]^2` of channel `k` with floor divisions, clamped at zero.
pub open spec fn chan_spread(g: Seq<Seq<RGB<u64>>>, k: int, tl: (usize, usize), br: (usize, usize)) -> int {
    let d = rect_sum(squares(g), k, tl, br) / area(tl, br) - mean_chan(g, k, tl, br) * mean_chan(g, k, tl, br);
    if d < 0 {
        0
    } else {
        d
    }
}

/// The split priority of a rectangle: its area times the summed channel spreads.
#[verifier::opaque]
pub open spec fn variance_score(g: Seq<Seq<RGB<u64>>>, tl: (usize, usize), br: (usize, usize)) -> int {
    (chan_spread(g, 0, tl, br) + chan_spread(g, 1, tl, br) + chan_spread(g, 2, tl, br)) * area(tl, br)
}

/// Total of channel `k` over a row, summed from its end.
pub open spec fn row_total(row: Seq<RGB<u64>>, k: int) -> int
    decreases row.len(),
{
    if row.len() == 0 {
        0
    } else {
        row_total(row.drop_last(), k) + chan(row.last(), k)
    }
}

/// Total of channel `k` over every pixel of a grid.
pub open spec fn grid_total(g: Seq<Seq<RGB<u64>>>, k: int) -> int
    decreases g.len(),
{
    if g.len() == 0 {
        0
    } else {
        grid_total(g.drop_last(), k) + row_total(g.last(), k)
    }
}

proof fn lemma_row_sum_prefix(row: Seq<RGB<u64>>, d: Seq<RGB<u64>>, k: int, c: int)
    requires
        0 <= c <= d.len() <= row.len(),
        forall|j: int| 0 <= j < d.len() ==> #[trigger] d[j] == row[j],
    ensures
        row_sum(row, k, 0, c) == row_sum(d, k, 0, c),
    decreases c,
{
    if c > 0 {
        lemma_row_sum_prefix(row, d, k, c - 1);
    }
}

proof fn lemma_row_total(row: Seq<RGB<u64>>, k: int)
    ensures
        row_sum(row, k, 0, row.len() as int) == row_total(row, k),
    decreases row.len(),
{
    if row.len() > 0 {
        let d = row.drop_last();
        lemma_row_total(d, k);
        lemma_row_sum_prefix(row, d, k, d.len() as int);
    }
}

proof fn lemma_region_sum_prefix(g: Seq<Seq<RGB<u64>>>, d: Seq<Seq<RGB<u64>>>, k: int, r: int, w: int)
    requires
        0 <= r <= d.len() <= g.len(),
        forall|i: int| 0 <= i < d.len() ==> #[trigger] d[i] == g[i],
    ensures
        region_sum(g, k, 0, r, 0, w) == region_sum(d, k, 0, r, 0, w),
    decreases r,
{
    if r > 0 {
        lemma_region_sum_prefix(g, d, k, r - 1, w);
    }
}

proof fn lemma_grid_total(g: Seq<Seq<RGB<u64>>>, k: int, w: int)
    requires
        is_rectangular(g, w),
    ensures
        region_sum(g, k, 0, g.len() as int, 0, w) == grid_total(g, k),
    decreases g.len(),
{
    if g.len() > 0 {
        let d = g.drop_last();
        assert(is_rectangular(d, w)) by {
            assert forall|i: int| 0 <= i < d.len() implies #[trigger] d[i].len() == w by {
                assert(g[i].len() == w);
            }
        }
        lemma_grid_total(d, k, w);
        lemma_region_sum_prefix(g, d, k, d.len() as int, w);
        assert(g.last().len() == w);
        lemma_row_total(g.last(), k);
    }
}

/// The sum over the full extent of the image is the total of all its pixel
/// values, channel by channel.
pub proof fn lemma_full_extent_sum(img: &ImageData, k: int)
    requires
        img.wf(),
        0 <= k < 3,
    ensures
        rect_sum(
            img.grid(),
            k,
            (0, 0),
            ((img.spec_height() - 1) as usize, (img.spec_width() - 1) as usize),
        ) == grid_total(img.grid(), k),
{
    img.lemma_wf();
    let g = img.grid();
    lemma_grid_total(g, k, g[0].len() as int);
}

/// Additivity across a row boundary: the sums of the parts above and below
/// row `mid` add up to the sum of the whole rectangle.
pub proof fn lemma_sum_split_rows(g: Seq<Seq<RGB<u64>>>, k: int, tl: (usize, usize), br: (usize, usize), mid: usize)
    requires
        tl.0 <= mid < br.0,
        tl.1 <= br.1,
    ensures
        rect_sum(g, k, tl, br) == rect_sum(g, k, tl, (mid, br.1)) + rect_sum(g, k, ((mid + 1) as usize, tl.1), br),
{
    lemma_region_split_rows(g, k, tl.0 as int, mid + 1, br.0 + 1, tl.1 as int, br.1 + 1);
}

/// Additivity across a column boundary: the sums of the parts left and right
/// of column `mid` add up to the sum of the whole rectangle.
pub proof fn lemma_sum_split_cols(g: Seq<Seq<RGB<u64>>>, k: int, tl: (usize, usize), br: (usize, usize), mid: usize)
    requires
        tl.1 <= mid < br.1,
        tl.0 <= br.0,
    ensures
        rect_sum(g, k, tl, br) == rect_sum(g, k, tl, (br.0, mid)) + rect_sum(g, k, (tl.0, (mid + 1) as usize), br),
{
    lemma_region_split_cols(g, k, tl.0 as int, br.0 + 1, tl.1 as int, mid + 1, br.1 + 1);
}

/// The inclusive rectangle `p = (top_left, bottom_right)` holds pixel `(r, c)`.
pub open spec fn part_contains(p: ((usize, usize), (usize, usize)), r: int, c: int) -> bool {
    p.0.0 <= r <= p.1.0 && p.0.1 <= c <= p.1.1
}

/// Number of the rectangles `parts` that hold pixel `(r, c)`.
pub open spec fn cover_count(parts: Seq<((usize, usize), (usize, usize))>, r: int, c: int) -> int
    decreases parts.len(),
{
    if parts.len() == 0 {
        0
    } else {
        cover_count(parts.drop_last(), r, c) + if part_contains(parts.last(), r, c) {
            1int
        } else {
            0int
        }
    }
}

/// Sum of channel `k` over each of the rectangles `parts`, added up.
pub open spec fn parts_sum(g: Seq<Seq<RGB<u64>>>, k: int, parts: Seq<((usize, usize), (usize, usize))>) -> int
    decreases parts.len(),
{
    if parts.len() == 0 {
        0
    } else {
        parts_sum(g, k, parts.drop_last()) + rect_sum(g, k, parts.last().0, parts.last().1)
    }
}

/// `parts` partitions the rectangle `tl..=br`: each part is a rectangle
/// inside it, and each of its pixels lies in exactly one part.
pub open spec fn partitions(parts: Seq<((usize, usize), (usize, usize))>, tl: (usize, usize), br: (usize, usize)) -> bool {
    &&& forall|i: int|
        0 <= i < parts.len() ==> tl.0 <= (#[trigger] parts[i]).0.0 <= parts[i].1.0 <= br.0 && tl.1 <= parts[i].0.1
            <= parts[i].1.1 <= br.1
    &&& forall|r: int, c: int| tl.0 <= r <= br.0 && tl.1 <= c <= br.1 ==> #[trigger] cover_count(parts, r, c) == 1
}

proof fn lemma_parts_wsum(g: Seq<Seq<RGB<u64>>>, k: int, parts: Seq<((usize, usize), (usize, usize))>, tl: (usize, usize), br: (usize, usize))
    requires
        tl.0 <= br.0,
        tl.1 <= br.1,
        forall|i: int|
            0 <= i < parts.len() ==> tl.0 <= (#[trigger] parts[i]).0.0 <= parts[i].1.0 <= br.0 && tl.1 <= parts[i].0.1
                <= parts[i].1.1 <= br.1,
    ensures
        wsum(g, k, |r: int, c: int| cover_count(parts, r, c), tl.0 as int, br.0 + 1, tl.1 as int, br.1 + 1)
            == parts_sum(g, k, parts),
    decreases parts.len(),
{
    let f = |r: int, c: int| cover_count(parts, r, c);
    let (r0, r1, c0, c1) = (tl.0 as int, br.0 + 1, tl.1 as int, br.1 + 1);
    if parts.len() == 0 {
        lemma_wsum_const(g, k, f, false, r0, r1, c0, c1);
    } else {
        let d = parts.drop_last();
        let q = parts.last();
        assert(q == parts[parts.len() - 1]);
        assert forall|i: int| 0 <= i < d.len() implies tl.0 <= (#[trigger] d[i]).0.0 <= d[i].1.0 <= br.0 && tl.1
            <= d[i].0.1 <= d[i].1.1 <= br.1 by {
            assert(d[i] == parts[i]);
        }
        lemma_parts_wsum(g, k, d, tl, br);
        let fd = |r: int, c: int| cover_count(d, r, c);
        let fq = |r: int, c: int| if part_contains(q, r, c) {
            1int
        } else {
            0int
        };
        lemma_wsum_linear(g, k, f, fq, fd, 1, r0, r1, c0, c1);
        lemma_wsum_indicator(g, k, fq, r0, r1, c0, c1, q.0.0 as int, q.1.0 + 1, q.0.1 as int, q.1.1 + 1);
    }
}

/// Additivity: for any partition of a rectangle into non-overlapping
/// sub-rectangles, the sums of the parts add up to the sum of the whole.
pub proof fn lemma_sum_additive(g: Seq<Seq<RGB<u64>>>, k: int, parts: Seq<((usize, usize), (usize, usize))>, tl: (usize, usize), br: (usize, usize))
    requires
        tl.0 <= br.0,
        tl.1 <= br.1,
        partitions(parts, tl, br),
    ensures
        parts_sum(g, k, parts) == rect_sum(g, k, tl, br),
{
    let f = |r: int, c: int| cover_count(parts, r, c);
    lemma_parts_wsum(g, k, parts, tl, br);
    lemma_wsum_const(g, k, f, true, tl.0 as int, br.0 + 1, tl.1 as int, br.1 + 1);
}

proof fn lemma_row_sum_uniform(row: Seq<RGB<u64>>, k: int, c0: int, c1: int, p: RGB<u64>)
    requires
        c0 <= c1 <= row.len(),
        0 <= c0,
        forall|j: int| c0 <= j < c1 ==> #[trigger] row[j] == p,
    ensures
        row_sum(row, k, c0, c1) == (c1 - c0) * chan(p, k),
    decreases c1 - c0,
{
    if c1 > c0 {
        lemma_row_sum_uniform(row, k, c0, c1 - 1, p);
        assert((c1 - 1 - c0) * chan(p, k) + chan(p, k) == (c1 - c0) * chan(p, k)) by (nonlinear_arith);
    } else {
        assert((c1 - c0) * chan(p, k) == 0) by (nonlinear_arith)
            requires
                c1 == c0,
        ;
    }
}

proof fn lemma_region_sum_uniform(g: Seq<Seq<RGB<u64>>>, k: int, r0: int, r1: int, c0: int, c1: int, p: RGB<u64>)
    requires
        0 <= r0 <= r1 <= g.len(),
        0 <= c0 <= c1,
        forall|i: int| r0 <= i < r1 ==> c1 <= #[trigger] g[i].len(),
        forall|i: int, j: int| r0 <= i < r1 && c0 <= j < c1 ==> #[trigger] g[i][j] == p,
    ensures
        region_sum(g, k, r0, r1, c0, c1) == (r1 - r0) * (c1 - c0) * chan(p, k),
    decreases r1 - r0,
{
    if r1 > r0 {
        lemma_region_sum_uniform(g, k, r0, r1 - 1, c0, c1, p);
        let row = g[r1 - 1];
        assert forall|j: int| c0 <= j < c1 implies #[trigger] row[j] == p by {
            assert(g[r1 - 1][j] == p);
        }
        lemma_row_sum_uniform(row, k, c0, c1, p);
        assert((r1 - 1 - r0) * (c1 - c0) * chan(p, k) + (c1 - c0) * chan(p, k) == (r1 - r0) * (c1 - c0) * chan(p, k))
            by (nonlinear_arith);
    } else {
        assert((r1 - r0) * (c1 - c0) * chan(p, k) == 0) by (nonlinear_arith)
            requires
                r1 == r0,
        ;
    }
}

proof fn lemma_uniform_spread(g: Seq<Seq<RGB<u64>>>, tl: (usize, usize), br: (usize, usize), p: RGB<u64>, k: int)
    requires
        tl.0 <= br.0 < g.len(),
        tl.1 <= br.1,
        forall|i: int| tl.0 <= i <= br.0 ==> br.1 < #[trigger] g[i].len(),
        forall|i: int, j: int| tl.0 <= i <= br.0 && tl.1 <= j <= br.1 ==> #[trigger] g[i][j] == p,
        p.r <= MAX_CHANNEL && p.g <= MAX_CHANNEL && p.b <= MAX_CHANNEL,
        0 <= k < 3,
    ensures
        chan_spread(g, k, tl, br) == 0,
{
    let sg = squares(g);
    let a = area(tl, br);
    let v = chan(p, k);
    lemma_region_sum_uniform(g, k, tl.0 as int, br.0 + 1, tl.1 as int, br.1 + 1, p);
    assert forall|i: int| tl.0 <= i < br.0 + 1 implies br.1 + 1 <= #[trigger] sg[i].len() by {
        assert(br.1 < g[i].len());
    }
    assert forall|i: int, j: int| tl.0 <= i < br.0 + 1 && tl.1 <= j < br.1 + 1 implies #[trigger] sg[i][j]
        == square_pixel(p) by {
        assert(br.1 < g[i].len());
        assert(g[i][j] == p);
    }
    lemma_region_sum_uniform(sg, k, tl.0 as int, br.0 + 1, tl.1 as int, br.1 + 1, square_pixel(p));
    assert(p.r * p.r <= 65025 && p.g * p.g <= 65025 && p.b * p.b <= 65025) by (nonlinear_arith)
        requires
            p.r <= 255,
            p.g <= 255,
            p.b <= 255,
    ;
    assert(chan(square_pixel(p), k) == v * v);
    assert((br.0 + 1 - tl.0) * (br.1 + 1 - tl.1) == a);
    assert(a > 0) by (nonlinear_arith)
        requires
            a == (br.0 + 1 - tl.0) * (br.1 + 1 - tl.1),
            tl.0 <= br.0,
            tl.1 <= br.1,
    ;
    assert((a * v) / a == v) by (nonlinear_arith)
        requires
            a > 0,
    ;
    assert((a * (v * v)) / a == v * v) by (nonlinear_arith)
        requires
            a > 0,
    ;
}

/// A rectangle of a single color has variance score zero.
pub proof fn lemma_uniform_variance(g: Seq<Seq<RGB<u64>>>, tl: (usize, usize), br: (usize, usize), p: RGB<u64>)
    requires
        tl.0 <= br.0 < g.len(),
        tl.1 <= br.1,
        forall|i: int| tl.0 <= i <= br.0 ==> br.1 < #[trigger] g[i].len(),
        forall|i: int, j: int| tl.0 <= i <= br.0 && tl.1 <= j <= br.1 ==> #[trigger] g[i][j] == p,
        p.r <= MAX_CHANNEL && p.g <= MAX_CHANNEL && p.b <= MAX_CHANNEL,
    ensures
        variance_score(g, tl, br) == 0,
{
    reveal(variance_score);
    lemma_uniform_spread(g, tl, br, p, 0);
    lemma_uniform_spread(g, tl, br, p, 1);
    lemma_uniform_spread(g, tl, br, p, 2);
    let a = area(tl, br);
    assert(0 * a == 0) by (nonlinear_arith);
}

/// Summed-area statistics over an image.
pub struct ImageData {
    height: usize,
    width: usize,
    sums: PrefixSumMatrix,
    square_sums: PrefixSumMatrix,
}

impl ImageData {
    /// The source pixels, row by row.
    pub closed spec fn grid(&self) -> Seq<Seq<RGB<u64>>> {
        self.sums.grid()
    }

    pub closed spec fn spec_height(&self) -> nat {
        self.height as nat
    }

    pub closed spec fn spec_width(&self) -> nat {
        self.width as nat
    }

    pub closed spec fn wf(&self) -> bool {
        &&& self.sums.wf()
        &&& self.square_sums.wf()
        &&& self.square_sums.grid() == squares(self.sums.grid())
        &&& cells_bounded(self.sums.grid(), MAX_CHANNEL as int)
        &&& self.height == self.sums.spec_height()
        &&& self.width == self.sums.spec_width()
    }

    /// What well-formed statistics say of their grid.
    pub proof fn lemma_wf(&self)
        requires
            self.wf(),
        ensures
            valid_dimensions(self.grid()),
            cells_bounded(self.grid(), MAX_CHANNEL as int),
            self.spec_height() == self.grid().len(),
            self.spec_width() == self.grid()[0].len(),
            0 < self.spec_height() <= MAX_SIDE,
            0 < self.spec_width() <= MAX_SIDE,
    {
        self.sums.lemma_wf();
    }

    /// The inclusive rectangle `tl`..=`br` lies inside the image.
    pub open spec fn in_bounds(&self, tl: (usize, usize), br: (usize, usize)) -> bool {
        tl.0 <= br.0 < self.spec_height() && tl.1 <= br.1 < self.spec_width()
    }

    /// Builds the statistics of a grid of pixels with channels in `0..=255`.
    /// Fails when the grid is empty, has an empty row, or is jagged.
    pub fn new(data: &Vec<Vec<RGB<u64>>>) -> (res: Result<Self, CompressError>)
        requires
            cells_bounded(grid_of(data@), MAX_CHANNEL as int),
        ensures
            match res {
                Ok(d) => valid_dimensions(grid_of(data@)) && d.wf() && d.grid() == grid_of(data@),
                Err(e) => !valid_dimensions(grid_of(data@)) && e == CompressError::InvalidDimensions,
            },
    {
        let ghost g = grid_of(data@);
        let sums = match PrefixSumMatrix::new(data) {
            Ok(t) => t,
            Err(e) => return Err(e),
        };
        let mut squared: Vec<Vec<RGB<u64>>> = Vec::new();
        let mut i: usize = 0;
        while i < data.len()
            invariant
                g == grid_of(data@),
                cells_bounded(g, MAX_CHANNEL as int),
                i <= data@.len(),
                squared@.len() == i,
                forall|a: int| 0 <= a < i ==> #[trigger] squared@[a]@ == squares(g)[a],
            decreases data.len() - i,
        {
            let row = &data[i];
            let mut out: Vec<RGB<u64>> = Vec::new();
            let mut j: usize = 0;
            assert(row@ == g[i as int]);
            while j < row.len()
                invariant
                    g == grid_of(data@),
                    cells_bounded(g, MAX_CHANNEL as int),
                    i < data@.len(),
                    row@ == g[i as int],
                    j <= row@.len(),
                    out@.len() == j,
                    forall|c: int| 0 <= c < j ==> #[trigger] out@[c] == square_pixel(g[i as int][c]),
                decreases row.len() - j,
            {
                let p = row[j];
                assert(0 <= chan(g[i as int][j as int], 0) <= 255);
                assert(0 <= chan(g[i as int][j as int], 1) <= 255);
                assert(0 <= chan(g[i as int][j as int], 2) <= 255);
                assert(p.r * p.r <= 65025 && p.g * p.g <= 65025 && p.b * p.b <= 65025) by (nonlinear_arith)
                    requires
                        p.r <= 255,
                        p.g <= 255,
                        p.b <= 255,
                ;
                out.push(p.comp_prod(p));
                j += 1;
            }
            assert(out@ =~= squares(g)[i as int]);
            squared.push(out);
            i += 1;
        }
        proof {
            let sg = grid_of(squared@);
            assert(sg =~= squares(g)) by {
                assert forall|a: int| 0 <= a < sg.len() implies sg[a] == squares(g)[a] by {
                    assert(squared@[a]@ == squares(g)[a]);
                }
            }
            assert forall|a: int, b: int, k: int|
                0 <= a < sg.len() && 0 <= b < sg[a].len() && 0 <= k < 3 implies 0 <= #[trigger] chan(
                sg[a][b],
                k,
            ) <= 65025 by {
                let p = g[a][b];
                assert(0 <= chan(p, 0) <= 255 && 0 <= chan(p, 1) <= 255 && 0 <= chan(p, 2) <= 255);
                assert(p.r * p.r <= 65025 && p.g * p.g <= 65025 && p.b * p.b <= 65025) by (nonlinear_arith)
                    requires
                        p.r <= 255,
                        p.g <= 255,
                        p.b <= 255,
                ;
            }
            assert(cells_bounded(g, 65025)) by {
                assert forall|a: int, b: int, k: int|
                    0 <= a < g.len() && 0 <= b < g[a].len() && 0 <= k < 3 implies 0 <= #[trigger] chan(
                    g[a][b],
                    k,
                ) <= 65025 by {
                    assert(chan(g[a][b], k) <= 255);
                }
            }
            assert forall|a: int| 0 <= a < sg.len() implies #[trigger] sg[a].len() <= MAX_SIDE by {
                assert(g[a].len() <= MAX_SIDE);
            }
        }
        let square_sums = match PrefixSumMatrix::new(&squared) {
            Ok(t) => t,
            Err(e) => {
                proof {
                    assert(valid_dimensions(grid_of(squared@))) by {
                        let sg = grid_of(squared@);
                        assert forall|a: int| 0 <= a < sg.len() implies #[trigger] sg[a].len() == sg[0].len() by {
                            assert(g[a].len() == g[0].len());
                        }
                    }
                }
                return Err(e);
            },
        };
        Ok(ImageData { height: sums.height(), width: sums.width(), sums, square_sums })
    }

    pub fn height(&self) -> (res: usize)
        ensures
            res == self.spec_height(),
    {
        self.height
    }

    pub fn width(&self) -> (res: usize)
        ensures
            res == self.spec_width(),
    {
        self.width
    }

    /// Channel sums over the inclusive rectangle `top_left`..=`bottom_right`.
    pub fn sum(&self, top_left: (usize, usize), bottom_right: (usize, usize)) -> (res: RGB<u64>)
        requires
            self.wf(),
            self.in_bounds(top_left, bottom_right),
        ensures
            forall|k: int| 0 <= k < 3 ==> #[trigger] chan(res, k) == rect_sum(self.grid(), k, top_left, bottom_right),
    {
        self.sums.query_sum(top_left, bottom_right)
    }

    /// Sums of squared channels over the inclusive rectangle.
    pub fn square_sum(&self, top_left: (usize, usize), bottom_right: (usize, usize)) -> (res: RGB<u64>)
        requires
            self.wf(),
            self.in_bounds(top_left, bottom_right),
        ensures
            forall|k: int|
                0 <= k < 3 ==> #[trigger] chan(res, k) == rect_sum(squares(self.grid()), k, top_left, bottom_right),
    {
        proof {
            self.sums.lemma_wf();
            self.square_sums.lemma_wf();
        }
        self.square_sums.query_sum(top_left, bottom_right)
    }

    proof fn lemma_rect_bounds(&self, tl: (usize, usize), br: (usize, usize), k: int)
        requires
            self.wf(),
            self.in_bounds(tl, br),
            0 <= k < 3,
        ensures
            0 < area(tl, br) <= MAX_SIDE * MAX_SIDE,
            0 <= rect_sum(self.grid(), k, tl, br) <= area(tl, br) * 255,
            0 <= rect_sum(squares(self.grid()), k, tl, br) <= area(tl, br) * 65025,
            0 <= mean_chan(self.grid(), k, tl, br) <= 255,
            0 <= rect_sum(squares(self.grid()), k, tl, br) / area(tl, br) <= 65025,
    {
        let g = self.grid();
        self.lemma_wf();
        assert(0 < area(tl, br) <= MAX_SIDE * MAX_SIDE) by (nonlinear_arith)
            requires
                tl.0 <= br.0 < MAX_SIDE,
                tl.1 <= br.1 < MAX_SIDE,
        ;
        assert forall|i: int| tl.0 <= i < br.0 + 1 implies br.1 + 1 <= #[trigger] g[i].len() by {
            assert(g[i].len() == g[0].len());
        }
        lemma_region_sum_bounds(g, k, tl.0 as int, br.0 + 1, tl.1 as int, br.1 + 1, 255);
        let sg = squares(g);
        assert(cells_bounded(sg, 65025)) by {
            assert forall|a: int| 0 <= a < sg.len() implies #[trigger] sg[a].len() <= MAX_SIDE by {
                assert(g[a].len() <= MAX_SIDE);
            }
            assert forall|a: int, b: int, c: int|
                0 <= a < sg.len() && 0 <= b < sg[a].len() && 0 <= c < 3 implies 0 <= #[trigger] chan(
                sg[a][b],
                c,
            ) <= 65025 by {
                let p = g[a][b];
                assert(0 <= chan(p, 0) <= 255 && 0 <= chan(p, 1) <= 255 && 0 <= chan(p, 2) <= 255);
                assert(p.r * p.r <= 65025 && p.g * p.g <= 65025 && p.b * p.b <= 65025) by (nonlinear_arith)
                    requires
                        p.r <= 255,
                        p.g <= 255,
                        p.b <= 255,
                ;
            }
        }
        assert forall|i: int| tl.0 <= i < br.0 + 1 implies br.1 + 1 <= #[trigger] sg[i].len() by {
            assert(g[i].len() == g[0].len());
        }
        lemma_region_sum_bounds(sg, k, tl.0 as int, br.0 + 1, tl.1 as int, br.1 + 1, 65025);
        let a = area(tl, br);
        let s = rect_sum(g, k, tl, br);
        let q = rect_sum(sg, k, tl, br);
        assert(s <= (br.0 + 1 - tl.0) * (br.1 + 1 - tl.1) * 255);
        assert((br.0 + 1 - tl.0) * (br.1 + 1 - tl.1) * 255 == a * 255) by (nonlinear_arith)
            requires
                a == (br.0 - tl.0 + 1) * (br.1 - tl.1 + 1),
        ;
        assert((br.0 + 1 - tl.0) * (br.1 + 1 - tl.1) * 65025 == a * 65025) by (nonlinear_arith)
            requires
                a == (br.0 - tl.0 + 1) * (br.1 - tl.1 + 1),
        ;
        assert(0 <= s / a <= 255) by (nonlinear_arith)
            requires
                0 <= s <= a * 255,
                a > 0,
        ;
        assert(0 <= q / a <= 65025) by (nonlinear_arith)
            requires
                0 <= q <= a * 65025,
                a > 0,
        ;
    }

    /// Variance scores fit in a `u64`.
    pub proof fn lemma_variance_bounds(&self, tl: (usize, usize), br: (usize, usize))
        requires
            self.wf(),
            self.in_bounds(tl, br),
        ensures
            0 <= variance_score(self.grid(), tl, br) <= u64::MAX,
    {
        reveal(variance_score);
        self.lemma_rect_bounds(tl, br, 0);
        self.lemma_rect_bounds(tl, br, 1);
        self.lemma_rect_bounds(tl, br, 2);
        let g = self.grid();
        let t = chan_spread(g, 0, tl, br) + chan_spread(g, 1, tl, br) + chan_spread(g, 2, tl, br);
        let a = area(tl, br);
        assert(0 <= t <= 195075);
        assert(0 <= t * a <= 195075 * (MAX_SIDE * MAX_SIDE)) by (nonlinear_arith)
            requires
                0 <= t <= 195075,
                0 < a <= MAX_SIDE * MAX_SIDE,
        ;
    }

    /// Floor of the mean color of the inclusive rectangle.
    pub fn average(&self, top_left: (usize, usize), bottom_right: (usize, usize)) -> (res: RGB<u64>)
        requires
            self.wf(),
            self.in_bounds(top_left, bottom_right),
        ensures
            forall|k: int| 0 <= k < 3 ==> #[trigger] chan(res, k) == mean_chan(self.grid(), k, top_left, bottom_right),
            res.r <= 255 && res.g <= 255 && res.b <= 255,
    {
        let (x1, y1) = top_left;
        let (x2, y2) = bottom_right;
        proof {
            self.lemma_rect_bounds(top_left, bottom_right, 0);
            self.lemma_rect_bounds(top_left, bottom_right, 1);
            self.lemma_rect_bounds(top_left, bottom_right, 2);
        }
        let area = ((x2 - x1 + 1) as u64) * ((y2 - y1 + 1) as u64);
        let s = self.sum(top_left, bottom_right);
        assert(chan(s, 0) == s.r && chan(s, 1) == s.g && chan(s, 2) == s.b);
        RGB::new(s.r / area, s.g / area, s.b / area)
    }

    /// The split priority of the inclusive rectangle (see `variance_score`).
    pub fn variance(&self, top_left: (usize, usize), bottom_right: (usize, usize)) -> (res: u64)
        requires
            self.wf(),
            self.in_bounds(top_left, bottom_right),
        ensures
            res == variance_score(self.grid(), top_left, bottom_right),
    {
        let (x1, y1) = top_left;
        let (x2, y2) = bottom_right;
        proof {
            self.lemma_rect_bounds(top_left, bottom_right, 0);
            self.lemma_rect_bounds(top_left, bottom_right, 1);
            self.lemma_rect_bounds(top_left, bottom_right, 2);
        }
        let area = ((x2 - x1 + 1) as u64) * ((y2 - y1 + 1) as u64);
        let mean = self.average(top_left, bottom_right);
        let square_sum = self.square_sum(top_left, bottom_right);
        assert(chan(mean, 0) == mean.r && chan(mean, 1) == mean.g && chan(mean, 2) == mean.b);
        assert(chan(square_sum, 0) == square_sum.r && chan(square_sum, 1) == square_sum.g && chan(square_sum, 2)
            == square_sum.b);
        assert(mean.r * mean.r <= 65025 && mean.g * mean.g <= 65025 && mean.b * mean.b <= 65025) by (nonlinear_arith)
            requires
                mean.r <= 255,
                mean.g <= 255,
                mean.b <= 255,
        ;
        let mean_squared = mean.comp_prod(mean);
        let square_avg = RGB::new(square_sum.r / area, square_sum.g / area, square_sum.b / area);
        let variance_r = square_avg.r.saturating_sub(mean_squared.r);
        let variance_g = square_avg.g.saturating_sub(mean_squared.g);
        let variance_b = square_avg.b.saturating_sub(mean_squared.b);
        let total = variance_r + variance_g + variance_b;
        proof {
            reveal(variance_score);
        }
        assert(total * area <= 195075 * (MAX_SIDE * MAX_SIDE)) by (nonlinear_arith)
            requires
                total <= 195075,
                area <= MAX_SIDE * MAX_SIDE,
        ;
        total * area
    }
}

} // verus!
