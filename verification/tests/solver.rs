use yin_yang_solver::rules::{check, RuleCheck};
use yin_yang_solver::solve::{solve, SolveResult};
use yin_yang_solver::solve_path::{SolvePath, SolveStep};
use yin_yang_solver::{apply_2x2, apply_border, apply_connectivity, apply_pbc, isolation};
use yin_yang_solver::{Array2, Cell, Grid};

fn cell_of(ch: char) -> Cell {
    match ch {
        'B' => Cell::Black,
        'W' => Cell::White,
        _ => Cell::Empty,
    }
}

fn grid(rows: &[&str]) -> Grid {
    let cols = rows[0].len();
    let data: Vec<Cell> = rows.iter().flat_map(|r| r.chars().map(cell_of)).collect();
    Array2::new(rows.len(), cols, data).unwrap()
}

fn text(g: &Grid) -> Vec<String> {
    (0..g.rows())
        .map(|r| {
            (0..g.cols())
                .map(|c| match g.get(r, c) {
                    Cell::Empty => '.',
                    Cell::Black => 'B',
                    Cell::White => 'W',
                })
                .collect()
        })
        .collect()
}

fn changes(step: &SolveStep) -> Vec<(usize, usize, Cell)> {
    match step {
        SolveStep::ApplyBorder(ch) | SolveStep::ApplyConnectivity(ch) => ch.clone(),
        other => panic!("unexpected step {other:?}"),
    }
}

#[test]
fn check_accepts_a_solved_grid() {
    assert_eq!(check(&grid(&["BW", "BW"])), RuleCheck::Solved);
    assert_eq!(check(&grid(&["BB", "BW"])), RuleCheck::Solved);
}

#[test]
fn check_finds_solid_block() {
    assert_eq!(check(&grid(&["BB", "BB"])), RuleCheck::Contradiction);
}

#[test]
fn check_finds_checkerboard() {
    assert_eq!(check(&grid(&["BW", "WB"])), RuleCheck::Contradiction);
}

#[test]
fn check_reports_empty_cells_as_unsolved() {
    assert_eq!(check(&grid(&["B.", ".W"])), RuleCheck::Unsolved);
}

#[test]
fn check_finds_violation_before_empty_cells() {
    assert_eq!(check(&grid(&["WW.", "WW."])), RuleCheck::Contradiction);
}

#[test]
fn check_finds_split_colour() {
    assert_eq!(check(&grid(&["BWB"])), RuleCheck::Contradiction);
    assert_eq!(check(&grid(&["WBW"])), RuleCheck::Contradiction);
}

#[test]
fn check_accepts_one_colour_only() {
    assert_eq!(check(&grid(&["BBB"])), RuleCheck::Solved);
}

#[test]
fn two_by_two_avoids_solid_block() {
    let mut g = grid(&["BB", "B."]);
    let mut path: Option<SolvePath> = Some(Vec::new());
    assert!(apply_2x2::apply(&mut g, &mut path));
    assert_eq!(text(&g), vec!["BB", "BW"]);
    let steps = path.unwrap();
    assert_eq!(steps.len(), 1);
    assert!(matches!(steps[0], SolveStep::ApplySolid2x2(1, 1, Cell::White)));
}

#[test]
fn two_by_two_avoids_checkerboard() {
    let mut g = grid(&[".W", "WB"]);
    let mut path: Option<SolvePath> = Some(Vec::new());
    assert!(apply_2x2::apply(&mut g, &mut path));
    assert_eq!(text(&g), vec!["WW", "WB"]);
    assert!(matches!(path.unwrap()[0], SolveStep::ApplyCheckerboard2x2(0, 0, Cell::White)));
}

#[test]
fn two_by_two_without_deduction_changes_nothing() {
    let mut g = grid(&["B.", ".W"]);
    let mut path: Option<SolvePath> = Some(Vec::new());
    assert!(!apply_2x2::apply(&mut g, &mut path));
    assert_eq!(text(&g), vec!["B.", ".W"]);
    assert!(path.unwrap().is_empty());
}

#[test]
fn two_by_two_without_path_records_nothing() {
    let mut g = grid(&["BB", "B."]);
    let mut path: Option<SolvePath> = None;
    assert!(apply_2x2::apply(&mut g, &mut path));
    assert!(path.is_none());
}

#[test]
fn border_fills_between_equal_colours() {
    let mut g = grid(&["B.B", "...", "W.."]);
    let mut path: Option<SolvePath> = Some(Vec::new());
    assert!(apply_border::apply(&mut g, &mut path));
    assert_eq!(text(&g), vec!["BBB", "...", "W.."]);
    let steps = path.unwrap();
    assert_eq!(changes(&steps[0]), vec![(0, 1, Cell::Black)]);
}

#[test]
fn border_needs_three_filled_cells() {
    let mut g = grid(&["B..", "...", "..W"]);
    let mut path: Option<SolvePath> = Some(Vec::new());
    assert!(!apply_border::apply(&mut g, &mut path));
    assert_eq!(text(&g), vec!["B..", "...", "..W"]);
    assert!(path.unwrap().is_empty());
}

#[test]
fn border_needs_both_colours() {
    let mut g = grid(&["B.B", "...", "B.."]);
    let mut path: Option<SolvePath> = Some(Vec::new());
    assert!(!apply_border::apply(&mut g, &mut path));
    assert_eq!(text(&g), vec!["B.B", "...", "B.."]);
}

#[test]
fn connectivity_fills_cut_cell() {
    let mut g = grid(&["B.B"]);
    let mut path: Option<SolvePath> = Some(Vec::new());
    assert!(apply_connectivity::apply(&mut g, &mut path));
    assert_eq!(text(&g), vec!["BBB"]);
    let steps = path.unwrap();
    assert_eq!(steps.len(), 1);
    assert_eq!(changes(&steps[0]), vec![(0, 1, Cell::Black)]);
}

#[test]
fn connectivity_fills_a_chain_of_cut_cells() {
    let mut g = grid(&["W..W"]);
    let mut path: Option<SolvePath> = Some(Vec::new());
    assert!(apply_connectivity::apply(&mut g, &mut path));
    assert_eq!(text(&g), vec!["WWWW"]);
    let steps = path.unwrap();
    assert_eq!(steps.len(), 1);
    assert_eq!(changes(&steps[0]), vec![(0, 2, Cell::White), (0, 1, Cell::White)]);
}

#[test]
fn single_colour_pass_fills_only_that_colour() {
    let mut g = grid(&["B.B", "W.W"]);
    let mut path: Option<SolvePath> = Some(Vec::new());
    assert!(apply_connectivity::apply_connectivity_for(&mut g, &mut path, Cell::White));
    assert_eq!(text(&g), vec!["B.B", "WWW"]);
    let steps = path.unwrap();
    assert_eq!(steps.len(), 1);
    assert_eq!(changes(&steps[0]), vec![(1, 1, Cell::White)]);
    let mut path: Option<SolvePath> = None;
    assert!(apply_connectivity::apply_connectivity_for(&mut g, &mut path, Cell::Black));
    assert_eq!(text(&g), vec!["BBB", "WWW"]);
    assert!(path.is_none());
}

#[test]
fn connectivity_leaves_cells_with_a_way_round() {
    let mut g = grid(&["B..", "...", "W.B"]);
    let mut path: Option<SolvePath> = Some(Vec::new());
    assert!(!apply_connectivity::apply(&mut g, &mut path));
    assert_eq!(text(&g), vec!["B..", "...", "W.B"]);
    assert!(path.unwrap().is_empty());
}

#[test]
fn isolation_fills_region_next_to_one_colour() {
    let mut g = grid(&["B.W.W"]);
    let mut path: Option<SolvePath> = Some(Vec::new());
    assert!(isolation::apply_isolation(&mut g, &mut path));
    assert_eq!(text(&g), vec!["B.WWW"]);
    assert_eq!(changes(&path.unwrap()[0]), vec![(0, 3, Cell::White)]);
}

#[test]
fn isolation_region_of_top_left_cell_floods_every_empty_cell() {
    let mut g = grid(&[".BW.W"]);
    let mut path: Option<SolvePath> = Some(Vec::new());
    assert!(isolation::apply_isolation(&mut g, &mut path));
    assert_eq!(text(&g), vec!["BBWBW"]);
    assert_eq!(changes(&path.unwrap()[0]), vec![(0, 0, Cell::Black), (0, 3, Cell::Black)]);
}

#[test]
fn isolation_lists_region_by_region() {
    let mut g = grid(&["B.BB", "B.B.", "B.BB"]);
    let mut path: Option<SolvePath> = Some(Vec::new());
    assert!(isolation::apply_isolation(&mut g, &mut path));
    assert_eq!(text(&g), vec!["BBBB", "BBBB", "BBBB"]);
    assert_eq!(
        changes(&path.unwrap()[0]),
        vec![(0, 1, Cell::Black), (1, 1, Cell::Black), (2, 1, Cell::Black), (1, 3, Cell::Black)]
    );
}

#[test]
fn isolation_leaves_region_next_to_both_colours() {
    let mut g = grid(&["B.W"]);
    let mut path: Option<SolvePath> = Some(Vec::new());
    assert!(!isolation::apply_isolation(&mut g, &mut path));
    assert_eq!(text(&g), vec!["B.W"]);
}

#[test]
fn pbc_fills_cell_whose_other_colour_fails() {
    let mut g = grid(&["BB", "B."]);
    let mut path: Option<SolvePath> = Some(Vec::new());
    assert!(apply_pbc::apply(&mut g, &mut path, 5));
    assert_eq!(text(&g), vec!["BB", "BW"]);
    let steps = path.unwrap();
    assert_eq!(steps.len(), 1);
    match &steps[0] {
        SolveStep::ApplyPbc(r, c, cell, sub) => {
            assert_eq!((*r, *c, *cell), (1, 1, Cell::White));
            assert!(sub.is_empty());
        }
        other => panic!("unexpected step {other:?}"),
    }
}

#[test]
fn pbc_gives_up_when_both_colours_stand() {
    let mut g = grid(&["B.", ".W"]);
    let mut path: Option<SolvePath> = Some(Vec::new());
    assert!(!apply_pbc::apply(&mut g, &mut path, 5));
    assert_eq!(text(&g), vec!["B.", ".W"]);
    assert!(path.unwrap().is_empty());
}

#[test]
fn solve_by_connectivity() {
    let mut path: Option<SolvePath> = Some(Vec::new());
    match solve(grid(&["B.B"]), &mut path) {
        SolveResult::Solved(g) => assert_eq!(text(&g), vec!["BBB"]),
        other => panic!("unexpected result {other:?}"),
    }
    let steps = path.unwrap();
    assert_eq!(steps.len(), 1);
    assert_eq!(changes(&steps[0]), vec![(0, 1, Cell::Black)]);
}

#[test]
fn solve_by_two_by_two() {
    let mut path: Option<SolvePath> = Some(Vec::new());
    match solve(grid(&["BB", "B."]), &mut path) {
        SolveResult::Solved(g) => assert_eq!(text(&g), vec!["BB", "BW"]),
        other => panic!("unexpected result {other:?}"),
    }
    let steps = path.unwrap();
    assert_eq!(steps.len(), 1);
    assert!(matches!(steps[0], SolveStep::ApplySolid2x2(1, 1, Cell::White)));
}

#[test]
fn solve_records_nothing_when_the_grid_is_already_rejected() {
    let mut path: Option<SolvePath> = Some(Vec::new());
    assert!(matches!(solve(grid(&["BB", "BB"]), &mut path), SolveResult::NoSolutions));
    assert!(path.unwrap().is_empty());
}

#[test]
fn solve_stops_with_partial_grid() {
    let mut path: Option<SolvePath> = Some(Vec::new());
    match solve(grid(&["B.", ".W"]), &mut path) {
        SolveResult::Partial(g) => assert_eq!(text(&g), vec!["B.", ".W"]),
        other => panic!("unexpected result {other:?}"),
    }
    assert!(path.unwrap().is_empty());
}

#[test]
fn solve_reports_contradiction() {
    let mut path: Option<SolvePath> = None;
    assert!(matches!(solve(grid(&["BW", "WB"]), &mut path), SolveResult::NoSolutions));
    assert!(path.is_none());
}

#[test]
fn solve_gives_no_solution_when_isolation_fills_without_the_other_colour() {
    // Without a white cell anywhere, each empty cell counts as next to black
    // only, and filling both makes a solid block.
    let mut path: Option<SolvePath> = Some(Vec::new());
    assert!(matches!(solve(grid(&["B.", ".B"]), &mut path), SolveResult::NoSolutions));
    let steps = path.unwrap();
    assert_eq!(steps.len(), 1);
    assert_eq!(changes(&steps[0]), vec![(0, 1, Cell::Black), (1, 0, Cell::Black)]);
}

#[test]
fn solved_grid_is_returned_unchanged() {
    let mut path: Option<SolvePath> = Some(Vec::new());
    match solve(grid(&["BW", "BW"]), &mut path) {
        SolveResult::Solved(g) => assert_eq!(text(&g), vec!["BW", "BW"]),
        other => panic!("unexpected result {other:?}"),
    }
    assert!(path.unwrap().is_empty());
}

#[test]
fn two_by_two_keeps_the_solution() {
    // The puzzle "BB/B." has the solution "BB/BW"; the rule agrees with it.
    let solution = grid(&["BB", "BW"]);
    assert_eq!(check(&solution), RuleCheck::Solved);
    let mut g = grid(&["BB", "B."]);
    let mut path: Option<SolvePath> = None;
    apply_2x2::apply(&mut g, &mut path);
    for r in 0..2 {
        for c in 0..2 {
            assert!(g.get(r, c) == Cell::Empty || g.get(r, c) == solution.get(r, c));
        }
    }
}

#[test]
fn cut_cell_pass_keeps_the_solution() {
    let solution = grid(&["BBW", "WWW"]);
    assert_eq!(check(&solution), RuleCheck::Solved);
    let mut g = grid(&["B.W", "W.W"]);
    let mut path: Option<SolvePath> = None;
    apply_connectivity::apply(&mut g, &mut path);
    for r in 0..2 {
        for c in 0..3 {
            assert!(g.get(r, c) == Cell::Empty || g.get(r, c) == solution.get(r, c));
        }
    }
}

#[test]
fn pbc_takes_the_first_cell_in_row_major_order() {
    // Without deductions, only a forbidden block refutes a hypothesis: black at
    // (1,1) makes a solid block, and so would white at (1,3), which comes later.
    let mut g = grid(&["BB.WW", "B...W"]);
    let mut path: Option<SolvePath> = Some(Vec::new());
    assert!(apply_pbc::apply(&mut g, &mut path, 0));
    assert_eq!(text(&g), vec!["BB.WW", "BW..W"]);
    match &path.unwrap()[0] {
        SolveStep::ApplyPbc(r, c, cell, sub) => {
            assert_eq!((*r, *c, *cell), (1, 1, Cell::White));
            assert!(sub.is_empty());
        }
        other => panic!("unexpected step {other:?}"),
    }
}

#[test]
fn pbc_tries_black_first() {
    // White at (0,1) makes a solid block, so the cell is black.
    let mut g = grid(&["W.", "WW"]);
    let mut path: Option<SolvePath> = None;
    assert!(apply_pbc::apply(&mut g, &mut path, 0));
    assert_eq!(text(&g), vec!["WB", "WW"]);
}

#[test]
fn rejected_grid_has_no_solution() {
    let g = grid(&["WW.", "WW."]);
    assert_eq!(check(&g), RuleCheck::Contradiction);
    for a in [Cell::Black, Cell::White] {
        for b in [Cell::Black, Cell::White] {
            let mut f = grid(&["WW.", "WW."]);
            f.set(0, 2, a);
            f.set(1, 2, b);
            assert_ne!(check(&f), RuleCheck::Solved);
        }
    }
}

#[test]
fn isolation_keeps_the_solution() {
    let solution = grid(&["BBWWW"]);
    assert_eq!(check(&solution), RuleCheck::Solved);
    let mut g = grid(&["B.W.W"]);
    let mut path: Option<SolvePath> = None;
    assert!(isolation::apply_isolation(&mut g, &mut path));
    for c in 0..5 {
        assert!(g.get(0, c) == Cell::Empty || g.get(0, c) == solution.get(0, c));
    }
}

#[test]
fn border_applied_twice_fills_nothing_more() {
    let mut g = grid(&["B.B.W", ".....", "W...."]);
    let mut path: Option<SolvePath> = Some(Vec::new());
    assert!(apply_border::apply(&mut g, &mut path));
    let after = text(&g);
    let steps = path.as_ref().unwrap().len();
    assert!(!apply_border::apply(&mut g, &mut path));
    assert_eq!(text(&g), after);
    assert_eq!(path.unwrap().len(), steps);
}
