//! Tests for the generic grid container.

use nbody_gravity::grid::Grid;

/// A 2x3 grid:
///
/// 0, 1, 2
///
/// 3, 4, 5
fn sample_grid() -> Grid<i32> {
    let mut g: Grid<i32> = Grid::fill_default(2, 3);
    g.set(0, 0, 0);
    g.set(0, 1, 1);
    g.set(0, 2, 2);
    g.set(1, 0, 3);
    g.set(1, 1, 4);
    g.set(1, 2, 5);
    g
}

#[test]
fn test_rows() {
    assert_eq!(2, sample_grid().rows());
}

#[test]
fn test_cols() {
    assert_eq!(3, sample_grid().cols());
}

#[test]
fn test_size() {
    assert_eq!((2, 3), sample_grid().size());
}

#[test]
fn test_iter_rows() {
    let g = sample_grid();
    let mut r = g.iter_rows().into_iter();

    assert_eq!(vec![0, 1, 2], r.next().unwrap().into_iter());
    assert_eq!(vec![3, 4, 5], r.next().unwrap().into_iter());
    assert!(r.next().is_none())
}

#[test]
fn test_iter_cols() {
    let g = sample_grid();
    let mut c = g.iter_cols().into_iter();

    assert_eq!(vec![0, 3], c.next().unwrap().into_iter());
    assert_eq!(vec![1, 4], c.next().unwrap().into_iter());
    assert_eq!(vec![2, 5], c.next().unwrap().into_iter());
    assert!(c.next().is_none())
}

#[test]
fn test_map_rowwise() {
    let g = sample_grid();
    let gg = g.map_rowwise(|row| {
        let r = row.row() as i32;
        row.into_iter().into_iter().map(|i| i + r).collect::<Vec<_>>()
    });

    assert_eq!(0 + 0, *gg.at(0, 0));
    assert_eq!(1 + 0, *gg.at(0, 1));
    assert_eq!(2 + 0, *gg.at(0, 2));
    assert_eq!(3 + 1, *gg.at(1, 0));
    assert_eq!(4 + 1, *gg.at(1, 1));
    assert_eq!(5 + 1, *gg.at(1, 2));
}

#[test]
fn test_map_colwise() {
    let g = sample_grid();
    let gg = g.map_colwise(|col| {
        let c = col.col() as i32;
        col.into_iter().into_iter().map(|i| i + c).collect::<Vec<_>>()
    });

    assert_eq!(0 + 0, *gg.at(0, 0));
    assert_eq!(3 + 0, *gg.at(1, 0));
    assert_eq!(1 + 1, *gg.at(0, 1));
    assert_eq!(4 + 1, *gg.at(1, 1));
    assert_eq!(2 + 2, *gg.at(0, 2));
    assert_eq!(5 + 2, *gg.at(1, 2));
}

#[test]
fn test_from_vec_layout() {
    let g: Grid<i32> = Grid::from_vec(vec![7, 8, 9, 10], 2);
    assert_eq!((2, 2), g.size());
    assert_eq!(7, *g.at(0, 0));
    assert_eq!(8, *g.at(0, 1));
    assert_eq!(9, *g.at(1, 0));
    assert_eq!(10, *g.at(1, 1));
}

#[test]
fn test_merge_entrywise() {
    let a = sample_grid();
    let b = sample_grid();
    let s = a.merge_entrywise(&b, |x, y| x + y);
    assert_eq!((2, 3), s.size());
    assert_eq!(0, *s.at(0, 0));
    assert_eq!(2, *s.at(0, 1));
    assert_eq!(10, *s.at(1, 2));
}

#[test]
fn test_row_and_col_snapshots() {
    let g = sample_grid();
    let r1 = g.row_at(1);
    assert_eq!(1, r1.row());
    assert_eq!(3, r1.cols());
    let c2 = g.col_at(2);
    assert_eq!(2, c2.col());
    assert_eq!(2, c2.rows());
    assert_eq!(vec![2, 5], c2.into_iter());
}
