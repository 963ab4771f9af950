//! Finite differences over scalar fields sampled on a [`Grid`].
//!
//! First derivatives use second-order central differences away from the
//! edges and first-order one-sided differences on them; second
//! derivatives use the three-point stencil.  All cells are fixed-point
//! scalars; results are saturated into the working range like every
//! other quantity in the crate.

use vstd::prelude::*;
use crate::fixed::{clamp_lim, sat_limit, tdiv, tdiv_i128, LIMIT, SCALE};
use crate::grid::{lemma_flat_len, lemma_row_major_index, Grid};

verus! {

/// Every cell is within the fixed-point working range.
pub open spec fn grid_vals_ok(g: Grid<i64>) -> bool {
    forall|i: int| 0 <= i < g.v@.len() ==> -LIMIT <= #[trigger] g.v@[i] <= LIMIT
}

/// The x-derivative at `(r, c)`: a one-sided difference on the left and
/// right edges, a halved central difference elsewhere, divided by the
/// grid spacing.
pub open spec fn px_cell(g: Grid<i64>, delta: i64, r: int, c: int) -> i64 {
    let w = g.cols as int;
    let d = if c == 0 {
        g.cell(r, 1) - g.cell(r, 0)
    } else if c == w - 1 {
        g.cell(r, c) - g.cell(r, c - 1)
    } else {
        tdiv(g.cell(r, c + 1) - g.cell(r, c - 1), 2)
    };
    clamp_lim(tdiv(d * SCALE, delta as int), LIMIT as int) as i64
}

/// The y-derivative at `(r, c)`, the transposed form of [`px_cell`].
pub open spec fn py_cell(g: Grid<i64>, delta: i64, r: int, c: int) -> i64 {
    let h = g.spec_rows();
    let d = if r == 0 {
        g.cell(1, c) - g.cell(0, c)
    } else if r == h - 1 {
        g.cell(r, c) - g.cell(r - 1, c)
    } else {
        tdiv(g.cell(r + 1, c) - g.cell(r - 1, c), 2)
    };
    clamp_lim(tdiv(d * SCALE, delta as int), LIMIT as int) as i64
}

/// The second x-derivative at `(r, c)`: the three-point stencil inside,
/// a plain difference on the edges, divided by the squared spacing.
pub open spec fn pxx_cell(g: Grid<i64>, delta: i64, r: int, c: int) -> i64 {
    let w = g.cols as int;
    let d = if c == 0 {
        g.cell(r, 1) - g.cell(r, 0)
    } else if c == w - 1 {
        g.cell(r, c) - g.cell(r, c - 1)
    } else {
        g.cell(r, c + 1) - 2 * g.cell(r, c) + g.cell(r, c - 1)
    };
    clamp_lim(tdiv(d * SCALE * SCALE, (delta as int) * (delta as int)), LIMIT as int) as i64
}

/// The second y-derivative at `(r, c)`, the transposed form of
/// [`pxx_cell`].
pub open spec fn pyy_cell(g: Grid<i64>, delta: i64, r: int, c: int) -> i64 {
    let h = g.spec_rows();
    let d = if r == 0 {
        g.cell(1, c) - g.cell(0, c)
    } else if r == h - 1 {
        g.cell(r, c) - g.cell(r - 1, c)
    } else {
        g.cell(r + 1, c) - 2 * g.cell(r, c) + g.cell(r - 1, c)
    };
    clamp_lim(tdiv(d * SCALE * SCALE, (delta as int) * (delta as int)), LIMIT as int) as i64
}

/// The stencil value the shared kernel walk computes at `(r, c)`.
pub open spec fn diff_cell(
    g: Grid<i64>,
    delta: i64,
    vertical: bool,
    second: bool,
    r: int,
    c: int,
) -> i64 {
    if vertical {
        if second {
            pyy_cell(g, delta, r, c)
        } else {
            py_cell(g, delta, r, c)
        }
    } else {
        if second {
            pxx_cell(g, delta, r, c)
        } else {
            px_cell(g, delta, r, c)
        }
    }
}

/// The squared spacing is positive and stencil numerators stay far
/// inside the `i128` range.
proof fn lemma_kernel_bounds(a: int, delta: int)
    requires
        0 < delta <= 0x7fff_ffff_ffff_ffff,
        -(4 * LIMIT) <= a <= 4 * LIMIT,
    ensures
        0 < delta * delta <= 0x4000_0000_0000_0000_0000_0000_0000_0000,
        -0x1_0000_0000_0000_0000_0000_0000 <= a * SCALE <= 0x1_0000_0000_0000_0000_0000_0000,
        -0x1_0000_0000_0000_0000_0000_0000_0000 <= a * SCALE * SCALE
            <= 0x1_0000_0000_0000_0000_0000_0000_0000,
{
    assert(0 < delta * delta <= 0x4000_0000_0000_0000_0000_0000_0000_0000) by (nonlinear_arith)
        requires
            0 < delta <= 0x8000_0000_0000_0000;
    assert(-0x1_0000_0000_0000_0000_0000_0000 <= a * SCALE <= 0x1_0000_0000_0000_0000_0000_0000
        && -0x1_0000_0000_0000_0000_0000_0000_0000 <= a * SCALE * SCALE
        <= 0x1_0000_0000_0000_0000_0000_0000_0000) by (nonlinear_arith)
        requires
            -(4 * LIMIT) <= a <= 4 * LIMIT,
            LIMIT == 0x4_0000_0000_0000,
            SCALE == 1_000_000;
}

/// One derivative cell, first-order kernel: `clamp(d * SCALE / delta)`.
fn first_order_cell(d: i128, delta: i64) -> (out: i64)
    requires
        delta > 0,
        -(4 * (LIMIT as int)) <= d <= 4 * (LIMIT as int),
    ensures
        out as int == clamp_lim(tdiv(d * SCALE, delta as int), LIMIT as int),
{
    proof {
        lemma_kernel_bounds(d as int, delta as int);
    }
    sat_limit(tdiv_i128(d * (SCALE as i128), delta as i128))
}

/// One derivative cell, second-order kernel:
/// `clamp(d * SCALE^2 / delta^2)`.
fn second_order_cell(d: i128, delta: i64) -> (out: i64)
    requires
        delta > 0,
        -(4 * (LIMIT as int)) <= d <= 4 * (LIMIT as int),
    ensures
        out as int == clamp_lim(
            tdiv(d * SCALE * SCALE, (delta as int) * (delta as int)),
            LIMIT as int,
        ),
{
    proof {
        lemma_kernel_bounds(d as int, delta as int);
    }
    sat_limit(tdiv_i128(d * (SCALE as i128) * (SCALE as i128), (delta as i128) * (delta as i128)))
}

/// Read one cell, with its working-range bound.
fn cell_val(grid: &Grid<i64>, r: usize, c: usize) -> (v: i64)
    requires
        grid.wf(),
        grid_vals_ok(*grid),
        r < grid.spec_rows(),
        c < grid.cols,
    ensures
        v == grid.cell(r as int, c as int),
        -LIMIT <= v <= LIMIT,
{
    proof {
        assert(grid.v.len() == grid.v@.len());
        lemma_flat_len(grid.v@.len() as int, grid.cols as int);
        lemma_row_major_index(r as int, c as int, grid.spec_rows(), grid.cols as int);
    }
    *grid.at(r, c)
}

/// Shared kernel walk: evaluate the chosen stencil at every cell in
/// row-major order.
fn diff_grid(grid: &Grid<i64>, delta: i64, vertical: bool, second: bool) -> (out: Grid<i64>)
    requires
        grid.wf(),
        grid_vals_ok(*grid),
        !vertical ==> grid.cols >= 2,
        vertical ==> grid.spec_rows() >= 2,
        delta > 0,
    ensures
        out.wf(),
        out.cols == grid.cols,
        out.v@.len() == grid.v@.len(),
        out.spec_rows() == grid.spec_rows(),
        forall|r: int, c: int|
            0 <= r < grid.spec_rows() && 0 <= c < grid.cols ==> #[trigger] out.cell(r, c)
                == diff_cell(*grid, delta, vertical, second, r, c),
{
    let ghost w = grid.cols as int;
    let r_total: usize = grid.rows();
    let c_total: usize = grid.cols;
    let mut v: Vec<i64> = Vec::new();
    proof {
        vstd::arithmetic::mul::lemma_mul_basics(w);
    }
    for r in 0..r_total
        invariant
            grid.wf(),
            grid_vals_ok(*grid),
            !vertical ==> grid.cols >= 2,
            vertical ==> grid.spec_rows() >= 2,
            delta > 0,
            r_total == grid.spec_rows(),
            c_total == grid.cols,
            w == grid.cols as int,
            v@.len() == r * w,
            forall|k: int|
                0 <= k < v@.len() ==> #[trigger] v@[k] == diff_cell(
                    *grid,
                    delta,
                    vertical,
                    second,
                    k / w,
                    k % w,
                ),
    {
        for c in 0..c_total
            invariant
                grid.wf(),
                grid_vals_ok(*grid),
                !vertical ==> grid.cols >= 2,
                vertical ==> grid.spec_rows() >= 2,
                delta > 0,
                r < r_total,
                r_total == grid.spec_rows(),
                c_total == grid.cols,
                w == grid.cols as int,
                v@.len() == r * w + c,
                forall|k: int|
                    0 <= k < v@.len() ==> #[trigger] v@[k] == diff_cell(
                        *grid,
                        delta,
                        vertical,
                        second,
                        k / w,
                        k % w,
                    ),
        {
            let d: i128 = if vertical {
                if r == 0 {
                    (cell_val(grid, 1, c) as i128) - (cell_val(grid, 0, c) as i128)
                } else if r == r_total - 1 {
                    (cell_val(grid, r, c) as i128) - (cell_val(grid, r - 1, c) as i128)
                } else if second {
                    (cell_val(grid, r + 1, c) as i128) - 2 * (cell_val(grid, r, c) as i128)
                        + (cell_val(grid, r - 1, c) as i128)
                } else {
                    let diff: i128 = (cell_val(grid, r + 1, c) as i128) - (cell_val(grid, r - 1, c) as i128);
                    tdiv_i128(diff, 2)
                }
            } else {
                if c == 0 {
                    (cell_val(grid, r, 1) as i128) - (cell_val(grid, r, 0) as i128)
                } else if c == c_total - 1 {
                    (cell_val(grid, r, c) as i128) - (cell_val(grid, r, c - 1) as i128)
                } else if second {
                    (cell_val(grid, r, c + 1) as i128) - 2 * (cell_val(grid, r, c) as i128)
                        + (cell_val(grid, r, c - 1) as i128)
                } else {
                    let diff: i128 = (cell_val(grid, r, c + 1) as i128) - (cell_val(grid, r, c - 1) as i128);
                    tdiv_i128(diff, 2)
                }
            };
            let cell: i64 = if second {
                second_order_cell(d, delta)
            } else {
                first_order_cell(d, delta)
            };
            proof {
                vstd::arithmetic::div_mod::lemma_fundamental_div_mod_converse_mod(
                    (r as int) * w + (c as int),
                    w,
                    r as int,
                    c as int,
                );
                vstd::arithmetic::div_mod::lemma_fundamental_div_mod_converse_div(
                    (r as int) * w + (c as int),
                    w,
                    r as int,
                    c as int,
                );
                assert(cell == diff_cell(*grid, delta, vertical, second, r as int, c as int));
            }
            v.push(cell);
        }
        proof {
            assert((r + 1) * w == r * w + w) by (nonlinear_arith);
        }
    }
    proof {
        assert(grid.v.len() == grid.v@.len());
        lemma_flat_len(grid.v@.len() as int, grid.cols as int);
    }
    let out = Grid { v, cols: grid.cols };
    proof {
        assert forall|r: int, c: int|
            0 <= r < grid.spec_rows() && 0 <= c < grid.cols implies #[trigger] out.cell(r, c)
            == diff_cell(*grid, delta, vertical, second, r, c) by {
            lemma_row_major_index(r, c, grid.spec_rows(), w);
            vstd::arithmetic::div_mod::lemma_fundamental_div_mod_converse_mod(r * w + c, w, r, c);
            vstd::arithmetic::div_mod::lemma_fundamental_div_mod_converse_div(r * w + c, w, r, c);
        }
    }
    out
}

/// The partial derivative of the sampled field along the x axis.
pub fn calculate_partial_difference_x(grid: &Grid<i64>, delta: i64) -> (out: Grid<i64>)
    requires
        grid.wf(),
        grid_vals_ok(*grid),
        grid.cols >= 2,
        delta > 0,
    ensures
        out.wf(),
        out.cols == grid.cols,
        out.v@.len() == grid.v@.len(),
        forall|r: int, c: int|
            0 <= r < grid.spec_rows() && 0 <= c < grid.cols ==> #[trigger] out.cell(r, c)
                == px_cell(*grid, delta, r, c),
{
    diff_grid(grid, delta, false, false)
}

/// The partial derivative of the sampled field along the y axis.
pub fn calculate_partial_difference_y(grid: &Grid<i64>, delta: i64) -> (out: Grid<i64>)
    requires
        grid.wf(),
        grid_vals_ok(*grid),
        grid.spec_rows() >= 2,
        delta > 0,
    ensures
        out.wf(),
        out.cols == grid.cols,
        out.v@.len() == grid.v@.len(),
        forall|r: int, c: int|
            0 <= r < grid.spec_rows() && 0 <= c < grid.cols ==> #[trigger] out.cell(r, c)
                == py_cell(*grid, delta, r, c),
{
    diff_grid(grid, delta, true, false)
}

/// The second partial derivative of the sampled field along the x axis.
pub fn calculate_partial_difference_xx(grid: &Grid<i64>, delta: i64) -> (out: Grid<i64>)
    requires
        grid.wf(),
        grid_vals_ok(*grid),
        grid.cols >= 2,
        delta > 0,
    ensures
        out.wf(),
        out.cols == grid.cols,
        out.v@.len() == grid.v@.len(),
        forall|r: int, c: int|
            0 <= r < grid.spec_rows() && 0 <= c < grid.cols ==> #[trigger] out.cell(r, c)
                == pxx_cell(*grid, delta, r, c),
{
    diff_grid(grid, delta, false, true)
}

/// The second partial derivative of the sampled field along the y axis.
pub fn calculate_partial_difference_yy(grid: &Grid<i64>, delta: i64) -> (out: Grid<i64>)
    requires
        grid.wf(),
        grid_vals_ok(*grid),
        grid.spec_rows() >= 2,
        delta > 0,
    ensures
        out.wf(),
        out.cols == grid.cols,
        out.v@.len() == grid.v@.len(),
        forall|r: int, c: int|
            0 <= r < grid.spec_rows() && 0 <= c < grid.cols ==> #[trigger] out.cell(r, c)
                == pyy_cell(*grid, delta, r, c),
{
    diff_grid(grid, delta, true, true)
}

/// Both first derivatives of the field: its gradient.
pub fn calculate_nabla(grid: &Grid<i64>, delta: i64) -> (out: (Grid<i64>, Grid<i64>))
    requires
        grid.wf(),
        grid_vals_ok(*grid),
        grid.cols >= 2,
        grid.spec_rows() >= 2,
        delta > 0,
    ensures
        out.0.wf(),
        out.1.wf(),
        out.0.cols == grid.cols,
        out.1.cols == grid.cols,
        out.0.v@.len() == grid.v@.len(),
        out.1.v@.len() == grid.v@.len(),
        forall|r: int, c: int|
            0 <= r < grid.spec_rows() && 0 <= c < grid.cols ==> (#[trigger] out.0.cell(r, c))
                == px_cell(*grid, delta, r, c) && out.1.cell(r, c) == py_cell(*grid, delta, r, c),
{
    let x = calculate_partial_difference_x(grid, delta);
    let y = calculate_partial_difference_y(grid, delta);
    (x, y)
}

/// The Laplacian of the field: the saturated sum of its two second
/// derivatives.
pub fn calculate_laplacian(grid: &Grid<i64>, delta: i64) -> (out: Grid<i64>)
    requires
        grid.wf(),
        grid_vals_ok(*grid),
        grid.cols >= 2,
        grid.spec_rows() >= 2,
        delta > 0,
    ensures
        out.wf(),
        out.cols == grid.cols,
        out.v@.len() == grid.v@.len(),
        forall|r: int, c: int|
            0 <= r < grid.spec_rows() && 0 <= c < grid.cols ==> #[trigger] out.cell(r, c) as int
                == clamp_lim(
                pxx_cell(*grid, delta, r, c) + pyy_cell(*grid, delta, r, c),
                LIMIT as int,
            ),
{
    let xx = calculate_partial_difference_xx(grid, delta);
    let yy = calculate_partial_difference_yy(grid, delta);
    let ghost xxg = xx;
    let ghost yyg = yy;
    let mut v: Vec<i64> = Vec::new();
    let n: usize = xx.v.len();
    for i in 0..n
        invariant
            n == xxg.v@.len(),
            n == yyg.v@.len(),
            xx == xxg,
            yy == yyg,
            v@.len() == i,
            forall|k: int|
                0 <= k < i ==> #[trigger] v@[k] as int == clamp_lim(
                    xxg.v@[k] + yyg.v@[k],
                    LIMIT as int,
                ),
    {
        v.push(sat_limit((xx.v[i] as i128) + (yy.v[i] as i128)));
    }
    proof {
        assert(grid.v.len() == grid.v@.len());
        lemma_flat_len(grid.v@.len() as int, grid.cols as int);
    }
    let out = Grid { v, cols: grid.cols };
    proof {
        assert forall|r: int, c: int|
            0 <= r < grid.spec_rows() && 0 <= c < grid.cols implies #[trigger] out.cell(r, c) as int
            == clamp_lim(
            pxx_cell(*grid, delta, r, c) + pyy_cell(*grid, delta, r, c),
            LIMIT as int,
        ) by {
            lemma_row_major_index(r, c, grid.spec_rows(), grid.cols as int);
            assert(xxg.cell(r, c) == pxx_cell(*grid, delta, r, c));
            assert(yyg.cell(r, c) == pyy_cell(*grid, delta, r, c));
        }
    }
    out
}

} // verus!
