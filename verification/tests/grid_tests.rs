use minesolver::grid::{surrounding, Grid};

#[test]
fn surrounding_interior_cell() {
    let n = surrounding(5, 7);
    assert_eq!(n, [(6, 8), (5, 8), (4, 8), (6, 7), (4, 7), (6, 6), (5, 6), (4, 6)]);
}

#[test]
fn surrounding_origin_uses_sentinel() {
    let m = usize::MAX;
    let n = surrounding(0, 0);
    assert_eq!(n, [(1, 1), (0, 1), (m, 1), (1, 0), (m, 0), (1, m), (0, m), (m, m)]);
}

#[test]
fn surrounding_top_of_range_does_not_wrap_to_zero() {
    let m = usize::MAX;
    let n = surrounding(m, m);
    for (x, y) in n {
        assert!(x == m || x == m - 1);
        assert!(y == m || y == m - 1);
    }
    assert_eq!(n[0], (m, m));
    assert_eq!(n[7], (m - 1, m - 1));
}

#[test]
fn surrounding_never_holds_the_cell_itself() {
    for x in 0..4usize {
        for y in 0..4usize {
            for c in surrounding(x, y) {
                assert_ne!(c, (x, y));
            }
        }
    }
}

#[test]
fn grid_new_is_filled() {
    let g: Grid<u8> = Grid::new(3, 2, 7);
    assert_eq!(g.width, 3);
    assert_eq!(g.height, 2);
    assert_eq!(g.rows, vec![vec![7, 7, 7], vec![7, 7, 7]]);
}

#[test]
fn grid_get_is_absent_off_the_grid() {
    let g: Grid<u8> = Grid::new(3, 2, 7);
    assert_eq!(g.get_2d(2, 1), Some(&7));
    assert_eq!(g.get_2d(3, 1), None);
    assert_eq!(g.get_2d(0, 2), None);
    assert_eq!(g.get_2d(usize::MAX, 0), None);
    assert_eq!(g.get_2d(0, usize::MAX), None);
}

#[test]
fn grid_get_mut_writes_one_cell() {
    let mut g: Grid<u8> = Grid::new(2, 2, 0);
    if let Some(v) = g.get_2d_mut(1, 0) {
        *v = 9;
    }
    assert!(g.get_2d_mut(2, 0).is_none());
    assert!(g.get_2d_mut(0, 2).is_none());
    assert_eq!(g.rows, vec![vec![0, 9], vec![0, 0]]);
}

#[test]
fn grid_index_and_index_mut() {
    let mut g: Grid<u8> = Grid::new(2, 3, 1);
    *g.index_2d_mut(1, 2) = 5;
    assert_eq!(*g.index_2d(1, 2), 5);
    assert_eq!(*g.index_2d(0, 2), 1);
    g.set(0, 0, 4);
    assert_eq!(g.rows, vec![vec![4, 1], vec![1, 1], vec![1, 5]]);
}

#[test]
fn grid_from_rows_takes_rectangles() {
    let g = Grid::from_rows(vec![vec![1u8, 2, 3], vec![4, 5, 6]]).unwrap();
    assert_eq!(g.width, 3);
    assert_eq!(g.height, 2);
    assert_eq!(*g.index_2d(2, 1), 6);
    let e: Grid<u8> = Grid::from_rows(vec![]).unwrap();
    assert_eq!((e.width, e.height), (0, 0));
}

#[test]
fn grid_from_rows_refuses_ragged_rows() {
    assert!(Grid::from_rows(vec![vec![1u8, 2, 3], vec![4, 5]]).is_none());
}
