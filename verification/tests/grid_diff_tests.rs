//! Tests for the finite-difference kernels.

use nbody_gravity::grid::Grid;
use nbody_gravity::grid_diff::{
    calculate_laplacian, calculate_nabla, calculate_partial_difference_x,
    calculate_partial_difference_xx, calculate_partial_difference_y,
    calculate_partial_difference_yy,
};

const S: i64 = 1_000_000;

/// A 3x3 field, in whole units:
///
/// 0, 1, 3
///
/// 3, 4, 6
///
/// 7, 8, 10
fn sample_grid() -> Grid<i64> {
    let mut g: Grid<i64> = Grid::fill_default(3, 3);
    g.set(0, 0, 0 * S);
    g.set(0, 1, 1 * S);
    g.set(0, 2, 3 * S);
    g.set(1, 0, 3 * S);
    g.set(1, 1, 4 * S);
    g.set(1, 2, 6 * S);
    g.set(2, 0, 7 * S);
    g.set(2, 1, 8 * S);
    g.set(2, 2, 10 * S);
    g
}

#[test]
fn test_calculate_partial_difference_x() {
    let g = sample_grid();
    let delta: i64 = 10 * S;

    let d = calculate_partial_difference_x(&g, delta);
    assert_eq!(g.size(), d.size());

    // 0.1, 0.15, 0.2 on every row
    for r in 0..3 {
        assert_eq!(100_000, *d.at(r, 0));
        assert_eq!(150_000, *d.at(r, 1));
        assert_eq!(200_000, *d.at(r, 2));
    }
}

#[test]
fn test_calculate_partial_difference_y() {
    let g = sample_grid();
    let delta: i64 = 10 * S;

    let d = calculate_partial_difference_y(&g, delta);
    assert_eq!(g.size(), d.size());

    // 0.3, 0.35, 0.4 down every column
    for c in 0..3 {
        assert_eq!(300_000, *d.at(0, c));
        assert_eq!(350_000, *d.at(1, c));
        assert_eq!(400_000, *d.at(2, c));
    }
}

#[test]
fn test_calculate_partial_difference_xx() {
    let g = sample_grid();
    let delta: i64 = 10 * S;

    let d = calculate_partial_difference_xx(&g, delta);
    assert_eq!(g.size(), d.size());

    // 0.01, 0.01, 0.02 on every row
    for r in 0..3 {
        assert_eq!(10_000, *d.at(r, 0));
        assert_eq!(10_000, *d.at(r, 1));
        assert_eq!(20_000, *d.at(r, 2));
    }
}

#[test]
fn test_calculate_partial_difference_yy() {
    let g = sample_grid();
    let delta: i64 = 10 * S;

    let d = calculate_partial_difference_yy(&g, delta);
    assert_eq!(g.size(), d.size());

    // 0.03 / 0.01 / 0.04 down every column
    for c in 0..3 {
        assert_eq!(30_000, *d.at(0, c));
        assert_eq!(10_000, *d.at(1, c));
        assert_eq!(40_000, *d.at(2, c));
    }
}

#[test]
fn test_calculate_nabla() {
    let g = sample_grid();
    let delta: i64 = 10 * S;

    let (x, y) = calculate_nabla(&g, delta);
    let px = calculate_partial_difference_x(&g, delta);
    let py = calculate_partial_difference_y(&g, delta);

    for r in 0..3 {
        for c in 0..3 {
            assert_eq!(*px.at(r, c), *x.at(r, c));
            assert_eq!(*py.at(r, c), *y.at(r, c));
        }
    }
}

#[test]
fn test_calculate_laplacian() {
    let g = sample_grid();
    let delta: i64 = 10 * S;

    let d = calculate_laplacian(&g, delta);
    assert_eq!(g.size(), d.size());

    assert_eq!(10_000 + 30_000, *d.at(0, 0));
    assert_eq!(10_000 + 30_000, *d.at(0, 1));
    assert_eq!(20_000 + 30_000, *d.at(0, 2));
    assert_eq!(10_000 + 10_000, *d.at(1, 0));
    assert_eq!(10_000 + 10_000, *d.at(1, 1));
    assert_eq!(20_000 + 10_000, *d.at(1, 2));
    assert_eq!(10_000 + 40_000, *d.at(2, 0));
    assert_eq!(10_000 + 40_000, *d.at(2, 1));
    assert_eq!(20_000 + 40_000, *d.at(2, 2));
}
