//! Density-weighted sampling of grid cells.
//!
//! A `DensityField` maps each cell `(x, y)` of a grid to a non-negative
//! integer density and keeps, per column, the column total and the grand
//! total. Drawing a sample takes a ticket `t` uniform in `[0, total)` and
//! walks first the columns and then the chosen column's cells, subtracting
//! totals until the ticket falls inside a cell; a cell is picked with
//! probability proportional to its density, and a zero-density cell is never
//! picked. Because all sums are exact, the walk provably never runs off the
//! end of the grid.

use vstd::prelude::*;

use crate::config::MAX_DIM;

verus! {

/// Largest density one cell may carry.
pub const CELL_MAX: u64 = 0x100_0000;

/// Largest quantized noise magnitude `from_noise` accepts.
pub const NOISE_MAX: u64 = 0x10_0000;

/// Fixed-point scale of the fade factor: `FADE_ONE` stands for 1.0.
pub const FADE_ONE: u64 = 1000;

/// Sum of the first `upto` entries of a column.
pub open spec fn col_sum(col: Seq<u64>, upto: int) -> int
    decreases upto,
{
    if upto <= 0 {
        0
    } else {
        col_sum(col, upto - 1) + col[upto - 1]
    }
}

/// Sum of the entries from index `i` to the end.
pub open spec fn sum_from(vals: Seq<u64>, i: int) -> int
    decreases vals.len() - i,
{
    if i < 0 || i >= vals.len() {
        0
    } else {
        vals[i] + sum_from(vals, i + 1)
    }
}

pub proof fn lemma_prefix_suffix(vals: Seq<u64>, i: int)
    requires
        0 <= i <= vals.len(),
    ensures
        col_sum(vals, vals.len() as int) == col_sum(vals, i) + sum_from(vals, i),
    decreases vals.len() - i,
{
    if i == vals.len() {
    } else {
        lemma_prefix_suffix(vals, i + 1);
    }
}

/// Sum of the totals of the first `upto` columns.
pub open spec fn grid_sum(g: Seq<Seq<u64>>, upto: int) -> int
    decreases upto,
{
    if upto <= 0 {
        0
    } else {
        grid_sum(g, upto - 1) + col_sum(g[upto - 1], g[upto - 1].len() as int)
    }
}

/// The cumulative walk: starting at index `i` with ticket `t`, subtract
/// entries until the ticket falls inside one; the result is that index and
/// what is left of the ticket.
pub open spec fn walk(vals: Seq<u64>, t: int, i: int) -> (int, int)
    decreases vals.len() - i,
{
    if i < 0 || i >= vals.len() {
        (i, t)
    } else if t < vals[i] {
        (i, t)
    } else {
        walk(vals, t - vals[i], i + 1)
    }
}

/// A ticket below the remaining total always lands strictly inside some
/// entry: the walk cannot run off the end, and never picks a zero entry.
pub proof fn lemma_walk_complete(vals: Seq<u64>, t: int, i: int)
    requires
        0 <= i <= vals.len(),
        0 <= t < sum_from(vals, i),
    ensures
        i <= walk(vals, t, i).0 < vals.len(),
        0 <= walk(vals, t, i).1 < vals[walk(vals, t, i).0],
        vals[walk(vals, t, i).0] > 0,
    decreases vals.len() - i,
{
    if i == vals.len() {
    } else if t < vals[i] {
    } else {
        lemma_walk_complete(vals, t - vals[i], i + 1);
    }
}

/// The walk passes over zero entries without consuming the ticket.
pub proof fn lemma_walk_zeros(vals: Seq<u64>, t: int, i: int, k: int)
    requires
        0 <= i <= k < vals.len(),
        forall|j: int| i <= j < k ==> vals[j] == 0,
        0 <= t < vals[k],
    ensures
        walk(vals, t, i) == (k, t),
    decreases k - i,
{
    if i < k {
        lemma_walk_zeros(vals, t, i + 1, k);
    }
}

/// A grid of densities: dimensions in range, rows rectangular, every cell
/// bounded.
pub open spec fn grid_wf(g: Seq<Seq<u64>>) -> bool {
    &&& 1 <= g.len() <= MAX_DIM
    &&& 1 <= g[0].len() <= MAX_DIM
    &&& forall|x: int| 0 <= x < g.len() ==> (#[trigger] g[x]).len() == g[0].len()
    &&& forall|x: int, y: int|
        0 <= x < g.len() && 0 <= y < g[0].len() ==> #[trigger] g[x][y] <= CELL_MAX
}

pub struct DensityField {
    pub cells: Vec<Vec<u64>>,
    pub cols: Vec<u64>,
    pub total: u64,
}

impl DensityField {
    pub open spec fn grid(self) -> Seq<Seq<u64>> {
        self.cells@.map_values(|c: Vec<u64>| c@)
    }

    pub open spec fn width(self) -> int {
        self.grid().len() as int
    }

    pub open spec fn height(self) -> int {
        self.grid()[0].len() as int
    }

    /// The column totals and the grand total agree with the cells.
    pub open spec fn wf(self) -> bool {
        &&& grid_wf(self.grid())
        &&& self.cols@.len() == self.grid().len()
        &&& forall|x: int|
            0 <= x < self.grid().len() ==> (#[trigger] self.cols@[x]) as int == col_sum(
                self.grid()[x],
                self.grid()[x].len() as int,
            )
        &&& self.total as int == grid_sum(self.grid(), self.grid().len() as int)
    }

    /// Which cell a ticket `t` in `[0, total)` lands on: walk the columns
    /// with the ticket, then the chosen column with what is left of it.
    pub open spec fn spec_sample(self, t: int) -> (int, int) {
        let xr = walk(self.cols@, t, 0);
        let yr = walk(self.grid()[xr.0], xr.1, 0);
        (xr.0, yr.0)
    }

    /// Build the cumulative structure over the given cells.
    pub fn from_cells(cells: Vec<Vec<u64>>) -> (r: DensityField)
        requires
            grid_wf(cells@.map_values(|c: Vec<u64>| c@)),
        ensures
            r.wf(),
            r.grid() == cells@.map_values(|c: Vec<u64>| c@),
    {
        let ghost g = cells@.map_values(|c: Vec<u64>| c@);
        let width: usize = cells.len();
        let height: usize = cells[0].len();
        let mut cols: Vec<u64> = Vec::new();
        let mut total: u64 = 0;
        let mut x: usize = 0;
        while x < width
            invariant
                g == cells@.map_values(|c: Vec<u64>| c@),
                grid_wf(g),
                width == g.len(),
                height == g[0].len(),
                cols@.len() == x as int,
                x <= width,
                forall|x2: int|
                    0 <= x2 < x as int ==> (#[trigger] cols@[x2]) as int == col_sum(
                        g[x2],
                        g[x2].len() as int,
                    ),
                total as int == grid_sum(g, x as int),
                total as int <= x as int * 0x10_0000_0000,
            decreases width - x,
        {
            let col: &Vec<u64> = &cells[x];
            let mut c: u64 = 0;
            let mut y: usize = 0;
            while y < height
                invariant
                    g == cells@.map_values(|c2: Vec<u64>| c2@),
                    grid_wf(g),
                    width == g.len(),
                    height == g[0].len(),
                    0 <= x < width,
                    col@ == g[x as int],
                    y <= height,
                    c as int == col_sum(col@, y as int),
                    c as int <= y as int * CELL_MAX,
                decreases height - y,
            {
                c = c + col[y];
                y = y + 1;
            }
            cols.push(c);
            proof {
                assert(c as int <= 0x10_0000_0000) by {
                    assert(height as int * CELL_MAX <= MAX_DIM as int * CELL_MAX);
                }
            }
            total = total + c;
            x = x + 1;
        }
        DensityField { cells, cols, total }
    }

    /// Draw the cell a ticket lands on. The ticket must lie below the grand
    /// total; the result is then always in bounds and its density positive.
    pub fn sample(&self, t: u64) -> (res: (usize, usize))
        requires
            self.wf(),
            t < self.total,
        ensures
            (res.0 as int, res.1 as int) == self.spec_sample(t as int),
            0 <= res.0 < self.width(),
            0 <= res.1 < self.height(),
            self.grid()[res.0 as int][res.1 as int] > 0,
    {
        proof {
            lemma_cols_cover(*self, 0);
            lemma_walk_complete(self.cols@, t as int, 0);
        }
        let mut x: usize = 0;
        let mut rem: u64 = t;
        while self.cols[x] <= rem
            invariant
                self.wf(),
                0 <= x < self.cols@.len(),
                walk(self.cols@, t as int, 0) == walk(self.cols@, rem as int, x as int),
                (rem as int) < sum_from(self.cols@, x as int),
                walk(self.cols@, t as int, 0).0 < self.cols@.len(),
            decreases self.cols@.len() - x,
        {
            rem = rem - self.cols[x];
            x = x + 1;
            proof {
                lemma_walk_complete(self.cols@, rem as int, x as int);
            }
        }
        proof {
            assert(walk(self.cols@, t as int, 0) == (x as int, rem as int));
            lemma_prefix_suffix(self.grid()[x as int], 0);
            lemma_walk_complete(self.grid()[x as int], rem as int, 0);
        }
        let col: &Vec<u64> = &self.cells[x];
        let mut y: usize = 0;
        while col[y] <= rem
            invariant
                self.wf(),
                0 <= x < self.width(),
                col@ == self.grid()[x as int],
                0 <= y < col@.len(),
                walk(col@, walk(self.cols@, t as int, 0).1, 0) == walk(col@, rem as int, y as int),
                (rem as int) < sum_from(col@, y as int),
            decreases col@.len() - y,
        {
            rem = rem - col[y];
            y = y + 1;
            proof {
                lemma_walk_complete(col@, rem as int, y as int);
            }
        }
        (x, y)
    }
}

/// Squared distance from the canvas center, in doubled coordinates (so that
/// a center at half-integer position stays exact).
pub open spec fn center_dist_sq2(x: int, y: int, w: int, h: int) -> int {
    (2 * x - w) * (2 * x - w) + (2 * y - h) * (2 * y - h)
}

/// The edge fade: `FADE_ONE` inside an inner disc around the center, zero
/// at and beyond the canvas-edge disc, and a linear ramp in between. The
/// discs are at 80% and 100% of half the smaller canvas dimension (doubled
/// coordinates double both radii).
pub open spec fn fade_of_d2(d2: int, w: int, h: int) -> int {
    let ro = if w <= h {
        w
    } else {
        h
    };
    let ri = (8 * ro) / 10;
    if d2 >= ro * ro {
        0
    } else if d2 <= ri * ri {
        FADE_ONE as int
    } else {
        ((ro * ro - d2) * FADE_ONE) / (ro * ro - ri * ri)
    }
}

pub proof fn lemma_fade_bounds(d2: int, w: int, h: int)
    requires
        1 <= w,
        1 <= h,
        0 <= d2,
    ensures
        0 <= fade_of_d2(d2, w, h) <= FADE_ONE,
{
    let ro = if w <= h {
        w
    } else {
        h
    };
    let ri = (8 * ro) / 10;
    crate::geom::lemma_div_shrinks(8 * ro, 10);
    assert(ri * ri <= ro * ro) by (nonlinear_arith)
        requires
            0 <= ri <= ro,
    ;
    if d2 >= ro * ro {
    } else if d2 <= ri * ri {
    } else {
        let num = ro * ro - d2;
        let den = ro * ro - ri * ri;
        assert(0 < num < den);
        assert(0 <= num * FADE_ONE <= den * FADE_ONE) by (nonlinear_arith)
            requires
                0 <= num <= den,
        ;
        crate::geom::lemma_div_shrinks(num * FADE_ONE, den);
        vstd::arithmetic::div_mod::lemma_div_is_ordered(num * FADE_ONE, den * FADE_ONE, den);
        assert((den * FADE_ONE) / den == FADE_ONE) by (nonlinear_arith)
            requires
                1 <= den,
        ;
    }
}

/// The fade never increases as the squared center distance grows.
pub proof fn lemma_fade_monotone(d2a: int, d2b: int, w: int, h: int)
    requires
        1 <= w,
        1 <= h,
        0 <= d2a <= d2b,
    ensures
        fade_of_d2(d2a, w, h) >= fade_of_d2(d2b, w, h),
{
    lemma_fade_bounds(d2a, w, h);
    lemma_fade_bounds(d2b, w, h);
    let ro = if w <= h {
        w
    } else {
        h
    };
    let ri = (8 * ro) / 10;
    crate::geom::lemma_div_shrinks(8 * ro, 10);
    assert(ri * ri <= ro * ro) by (nonlinear_arith)
        requires
            0 <= ri <= ro,
    ;
    if d2b >= ro * ro {
    } else if d2a <= ri * ri {
    } else {
        let den = ro * ro - ri * ri;
        assert((ro * ro - d2b) * FADE_ONE <= (ro * ro - d2a) * FADE_ONE) by (nonlinear_arith)
            requires
                d2a <= d2b,
        ;
        vstd::arithmetic::div_mod::lemma_div_is_ordered(
            (ro * ro - d2b) * FADE_ONE,
            (ro * ro - d2a) * FADE_ONE,
            den,
        );
    }
}

/// The fade factor of cell `(x, y)` on a `w` by `h` canvas.
pub fn fade(x: usize, y: usize, w: usize, h: usize) -> (f: u64)
    requires
        x < w <= MAX_DIM,
        y < h <= MAX_DIM,
    ensures
        f as int == fade_of_d2(center_dist_sq2(x as int, y as int, w as int, h as int), w as int, h as int),
        f <= FADE_ONE,
{
    let dx: i64 = 2 * (x as i64) - (w as i64);
    let dy: i64 = 2 * (y as i64) - (h as i64);
    proof {
        crate::geom::lemma_square_bound(dx as int, 2 * MAX_DIM as int);
        crate::geom::lemma_square_bound(dy as int, 2 * MAX_DIM as int);
    }
    let d2: i64 = dx * dx + dy * dy;
    proof {
        lemma_fade_bounds(d2 as int, w as int, h as int);
    }
    let ro: i64 = if w <= h {
        w as i64
    } else {
        h as i64
    };
    let ri: i64 = (8 * ro) / 10;
    proof {
        crate::geom::lemma_div_shrinks(8 * ro as int, 10);
        assert(ri * ri <= ro * ro) by (nonlinear_arith)
            requires
                0 <= ri <= ro,
        ;
        crate::geom::lemma_square_bound(ro as int, MAX_DIM as int);
    }
    if d2 >= ro * ro {
        0
    } else if d2 <= ri * ri {
        FADE_ONE
    } else {
        let num: i64 = ro * ro - d2;
        let den: i64 = ro * ro - ri * ri;
        ((num as u64) * FADE_ONE / (den as u64)) as u64
    }
}

/// Build a field whose density is the quantized noise magnitude of each cell
/// scaled by the edge fade: high where the noise is strong near the center,
/// zero at the canvas edge.
pub fn from_noise(noise: &Vec<Vec<u64>>) -> (r: DensityField)
    requires
        grid_wf(noise@.map_values(|c: Vec<u64>| c@)),
        forall|x: int, y: int|
            0 <= x < noise@.len() && 0 <= y < noise@[0]@.len() ==> #[trigger] noise@[x]@[y]
                <= NOISE_MAX,
    ensures
        r.wf(),
        r.width() == noise@.len(),
        r.height() == noise@[0]@.len(),
        forall|x: int, y: int|
            0 <= x < r.width() && 0 <= y < r.height() ==> #[trigger] r.grid()[x][y] == (
            noise@[x]@[y] * fade_of_d2(
                center_dist_sq2(x, y, r.width(), r.height()),
                r.width(),
                r.height(),
            )) / (FADE_ONE as int),
{
    let ghost gn = noise@.map_values(|c: Vec<u64>| c@);
    let w: usize = noise.len();
    let h: usize = noise[0].len();
    let mut cells: Vec<Vec<u64>> = Vec::new();
    let mut x: usize = 0;
    while x < w
        invariant
            gn == noise@.map_values(|c: Vec<u64>| c@),
            grid_wf(gn),
            forall|x2: int, y2: int|
                0 <= x2 < gn.len() && 0 <= y2 < gn[0].len() ==> #[trigger] gn[x2][y2] <= NOISE_MAX,
            w == gn.len(),
            h == gn[0].len(),
            x <= w,
            cells@.len() == x as int,
            forall|x2: int| 0 <= x2 < x as int ==> (#[trigger] cells@[x2])@.len() == h,
            forall|x2: int, y2: int|
                0 <= x2 < x as int && 0 <= y2 < h ==> #[trigger] cells@[x2]@[y2] == (gn[x2][y2]
                    * fade_of_d2(center_dist_sq2(x2, y2, w as int, h as int), w as int, h as int))
                    / (FADE_ONE as int),
        decreases w - x,
    {
        let mut col: Vec<u64> = Vec::new();
        let mut y: usize = 0;
        while y < h
            invariant
                gn == noise@.map_values(|c: Vec<u64>| c@),
                grid_wf(gn),
                forall|x2: int, y2: int|
                    0 <= x2 < gn.len() && 0 <= y2 < gn[0].len() ==> #[trigger] gn[x2][y2]
                        <= NOISE_MAX,
                w == gn.len(),
                h == gn[0].len(),
                0 <= x < w,
                y <= h,
                col@.len() == y as int,
                forall|y2: int|
                    0 <= y2 < y as int ==> #[trigger] col@[y2] as int == (gn[x as int][y2]
                        * fade_of_d2(
                        center_dist_sq2(x as int, y2, w as int, h as int),
                        w as int,
                        h as int,
                    )) / (FADE_ONE as int),
            decreases h - y,
        {
            proof {
                assert(gn[x as int] == noise@[x as int]@);
                assert(gn[x as int].len() == h);
                assert(gn[x as int][y as int] <= NOISE_MAX);
            }
            let f: u64 = fade(x, y, w, h);
            let n: u64 = noise[x][y];
            proof {
                assert(n * f <= NOISE_MAX * FADE_ONE) by (nonlinear_arith)
                    requires
                        0 <= n <= NOISE_MAX,
                        0 <= f <= FADE_ONE,
                ;
            }
            let v: u64 = n * f / FADE_ONE;
            col.push(v);
            y = y + 1;
        }
        cells.push(col);
        x = x + 1;
    }
    proof {
        let gc = cells@.map_values(|c: Vec<u64>| c@);
        assert forall|x2: int, y2: int|
            0 <= x2 < gc.len() && 0 <= y2 < gc[0].len() implies #[trigger] gc[x2][y2]
            <= CELL_MAX by {
            let d2 = center_dist_sq2(x2, y2, w as int, h as int);
            crate::geom::lemma_square_bound(2 * x2 - w as int, 2 * MAX_DIM as int);
            crate::geom::lemma_square_bound(2 * y2 - h as int, 2 * MAX_DIM as int);
            lemma_fade_bounds(d2, w as int, h as int);
            let fv = fade_of_d2(d2, w as int, h as int);
            assert(gn[x2][y2] * fv <= NOISE_MAX * FADE_ONE) by (nonlinear_arith)
                requires
                    0 <= gn[x2][y2] <= NOISE_MAX,
                    0 <= fv <= FADE_ONE,
            ;
            crate::geom::lemma_div_shrinks(gn[x2][y2] * fv, FADE_ONE as int);
            vstd::arithmetic::div_mod::lemma_div_is_ordered(
                gn[x2][y2] * fv,
                NOISE_MAX * FADE_ONE,
                FADE_ONE as int,
            );
        }
    }
    DensityField::from_cells(cells)
}

pub proof fn lemma_col_sum_zero(col: Seq<u64>, upto: int)
    requires
        forall|j: int| 0 <= j < upto ==> col[j] == 0,
    ensures
        col_sum(col, upto) == 0,
    decreases upto,
{
    if upto > 0 {
        lemma_col_sum_zero(col, upto - 1);
    }
}

pub proof fn lemma_col_sum_single(col: Seq<u64>, y0: int, upto: int)
    requires
        0 <= y0 < upto <= col.len(),
        forall|j: int| 0 <= j < upto && j != y0 ==> col[j] == 0,
    ensures
        col_sum(col, upto) == col[y0],
    decreases upto,
{
    if upto - 1 == y0 {
        lemma_col_sum_zero(col, upto - 1);
    } else {
        lemma_col_sum_single(col, y0, upto - 1);
    }
}

/// Determinism of the sampler under a point mass: if all density sits in one
/// cell, every ticket lands on that cell.
pub proof fn lemma_point_mass(f: DensityField, x0: int, y0: int, t: int)
    requires
        f.wf(),
        0 <= x0 < f.width(),
        0 <= y0 < f.height(),
        f.grid()[x0][y0] > 0,
        forall|x: int, y: int|
            0 <= x < f.width() && 0 <= y < f.height() && (x != x0 || y != y0)
                ==> #[trigger] f.grid()[x][y] == 0,
        0 <= t < f.total,
    ensures
        f.spec_sample(t) == (x0, y0),
{
    let g = f.grid();
    let w = g.len() as int;
    let h = g[0].len() as int;
    assert forall|x: int| 0 <= x < w && x != x0 implies #[trigger] f.cols@[x] == 0 by {
        lemma_col_sum_zero(g[x], g[x].len() as int);
    }
    lemma_col_sum_single(g[x0], y0, g[x0].len() as int);
    assert(f.cols@[x0] as int == g[x0][y0] as int);
    lemma_cols_cover(f, 0);
    assert(sum_from(f.cols@, 0) == f.total);
    lemma_prefix_suffix(f.cols@, 0);
    assert(col_sum(f.cols@, f.cols@.len() as int) == f.total);
    lemma_col_sum_single(f.cols@, x0, f.cols@.len() as int);
    assert(f.total as int == f.cols@[x0]);
    lemma_walk_zeros(f.cols@, t, 0, x0);
    assert(walk(f.cols@, t, 0) == (x0, t));
    lemma_walk_zeros(g[x0], t, 0, y0);
}

/// The suffix sum of the column totals from `i` equals the grand total minus
/// the first `i` columns; in particular the grand total covers the whole
/// column walk.
pub proof fn lemma_cols_cover(f: DensityField, i: int)
    requires
        f.wf(),
        0 <= i <= f.cols@.len(),
    ensures
        sum_from(f.cols@, i) == grid_sum(f.grid(), f.grid().len() as int) - grid_sum(f.grid(), i),
    decreases f.cols@.len() - i,
{
    if i == f.cols@.len() {
    } else {
        lemma_cols_cover(f, i + 1);
    }
}

} // verus!
