use yin_yang_solver::ext::CellExt;
use yin_yang_solver::iter::{IterAdjacent, IterBorderPositions};
use yin_yang_solver::{Array2, Cell, Grid};

fn cell_of(ch: char) -> Cell {
    match ch {
        'B' => Cell::Black,
        'W' => Cell::White,
        _ => Cell::Empty,
    }
}

fn grid(rows: &[&str]) -> Grid {
    let cols = rows[0].len();
    let data: Vec<Cell> = rows.iter().flat_map(|r| r.chars().map(cell_of)).collect();
    Array2::new(rows.len(), cols, data).unwrap()
}

#[test]
fn inv_swaps_colours_and_keeps_empty() {
    assert_eq!(Cell::Black.inv(), Cell::White);
    assert_eq!(Cell::White.inv(), Cell::Black);
    assert_eq!(Cell::Empty.inv(), Cell::Empty);
}

#[test]
fn inv_twice_is_identity() {
    for c in [Cell::Empty, Cell::Black, Cell::White] {
        assert_eq!(c.inv().inv(), c);
    }
}

#[test]
fn empty_only_for_empty() {
    assert!(Cell::Empty.empty());
    assert!(!Cell::Black.empty());
    assert!(!Cell::White.empty());
}

#[test]
fn array_new_checks_length() {
    assert!(Array2::new(2, 2, vec![Cell::Empty; 3]).is_none());
    assert!(Array2::new(2, 2, vec![Cell::Empty; 5]).is_none());
    let a = Array2::new(2, 3, vec![Cell::Empty; 6]).unwrap();
    assert_eq!(a.rows(), 2);
    assert_eq!(a.cols(), 3);
    assert_eq!(a.len(), 6);
}

#[test]
fn array_new_refuses_oversized_shape() {
    assert!(Array2::<u8>::new(usize::MAX, 2, Vec::new()).is_none());
}

#[test]
fn array_set_and_get_are_row_major() {
    let mut a = Array2::filled(2, 3, 0u8);
    a.set(1, 2, 7);
    a.set(0, 1, 5);
    assert_eq!(a.get(1, 2), 7);
    assert_eq!(a.get(0, 1), 5);
    assert_eq!(a.get(0, 0), 0);
    assert_eq!(a.index_of(1, 2), 5);
    assert_eq!(a.data, vec![0, 5, 0, 0, 0, 7]);
    let b = a.copy();
    assert_eq!(b.data, a.data);
}

#[test]
fn grid_helper_reads_rows() {
    let g = grid(&["B.", ".W"]);
    assert_eq!(g.get(0, 0), Cell::Black);
    assert_eq!(g.get(0, 1), Cell::Empty);
    assert_eq!(g.get(1, 1), Cell::White);
}

fn all_border(rows: usize, cols: usize) -> Vec<(usize, usize)> {
    let mut it = IterBorderPositions::new(rows, cols);
    let mut out = Vec::new();
    while let Some(p) = it.next() {
        out.push(p);
    }
    out
}

#[test]
fn border_walk_3x3_goes_clockwise() {
    assert_eq!(
        all_border(3, 3),
        vec![(0, 0), (0, 1), (0, 2), (1, 2), (2, 2), (2, 1), (2, 0), (1, 0)]
    );
}

#[test]
fn border_walk_2x3() {
    assert_eq!(all_border(2, 3), vec![(0, 0), (0, 1), (0, 2), (1, 2), (1, 1), (1, 0)]);
}

#[test]
fn border_walk_of_one_row_goes_there_and_back() {
    assert_eq!(all_border(1, 3), vec![(0, 0), (0, 1), (0, 2), (0, 1)]);
}

#[test]
fn border_walk_stays_done() {
    let mut it = IterBorderPositions::new(2, 2);
    for _ in 0..4 {
        assert!(it.next().is_some());
    }
    assert_eq!(it.next(), None);
    assert_eq!(it.next(), None);
}

#[test]
fn border_peek_does_not_advance() {
    let mut it = IterBorderPositions::new(2, 3);
    assert_eq!(it.peek(), Some((0, 0)));
    assert_eq!(it.peek(), Some((0, 0)));
    assert_eq!(it.next(), Some((0, 0)));
    assert_eq!(it.peek(), Some((0, 1)));
    for _ in 0..5 {
        assert!(it.next().is_some());
    }
    assert_eq!(it.peek(), None);
    assert_eq!(it.next(), None);
    assert_eq!(it.peek(), None);
}

fn all_adjacent(rows: usize, cols: usize, r: usize, c: usize) -> Vec<(usize, usize)> {
    let mut it = IterAdjacent::new(rows, cols, r, c);
    let mut out = Vec::new();
    while let Some(p) = it.next() {
        out.push(p);
    }
    out
}

#[test]
fn adjacent_order_is_below_right_above_left() {
    assert_eq!(all_adjacent(3, 3, 1, 1), vec![(2, 1), (1, 2), (0, 1), (1, 0)]);
}

#[test]
fn adjacent_at_corners_stays_inside() {
    assert_eq!(all_adjacent(2, 2, 0, 0), vec![(1, 0), (0, 1)]);
    assert_eq!(all_adjacent(2, 2, 1, 1), vec![(0, 1), (1, 0)]);
    assert_eq!(all_adjacent(1, 1, 0, 0), Vec::<(usize, usize)>::new());
}

#[test]
fn adjacency_is_symmetric_and_never_the_centre() {
    let (rows, cols) = (3, 4);
    for r1 in 0..rows {
        for c1 in 0..cols {
            let around = all_adjacent(rows, cols, r1, c1);
            assert!(!around.contains(&(r1, c1)));
            for r2 in 0..rows {
                for c2 in 0..cols {
                    assert_eq!(
                        around.contains(&(r2, c2)),
                        all_adjacent(rows, cols, r2, c2).contains(&(r1, c1))
                    );
                }
            }
        }
    }
}
