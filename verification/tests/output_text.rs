use yin_yang_solver::dump::DumpGrid;
use yin_yang_solver::input::{
    ends_with, is_known_puzzle_site, puzzle_url, split_puzzle_url, starts_with, InputFormat,
};
use yin_yang_solver::output::{
    format_ascii, format_colors, grid_list_item, path_fits, path_to_html_list,
    path_to_html_list_items, step_fits_grid, step_to_html_list_item,
};
use yin_yang_solver::solve::{solve, SolveResult};
use yin_yang_solver::solve_path::{fmt_path, SolvePath, SolveStep};
use yin_yang_solver::{Array2, Cell, Grid};

fn cell_of(ch: char) -> Cell {
    match ch {
        'B' => Cell::Black,
        'W' => Cell::White,
        _ => Cell::Empty,
    }
}

fn grid(rows: &[&str]) -> Grid {
    let cols = rows[0].len();
    let data: Vec<Cell> = rows.iter().flat_map(|r| r.chars().map(cell_of)).collect();
    Array2::new(rows.len(), cols, data).unwrap()
}

#[test]
fn ascii_uses_letters_and_spaces() {
    assert_eq!(format_ascii(&grid(&["B.", ".W"])), "B .\n. W\n");
    assert_eq!(format_ascii(&grid(&["BWB"])), "B W B\n");
}

#[test]
fn colours_use_squares() {
    assert_eq!(format_colors(&grid(&["B.", ".W"])), "\u{2b1c}  \n  \u{2b1b}\n");
}

#[test]
fn dump_draws_numbered_rows_and_columns() {
    let g = grid(&["B.", ".W"]);
    assert_eq!(DumpGrid("", &g).to_string(), "    0  1 \n 0 ( ) - \n 1  - (@)");
}

#[test]
fn dump_puts_prefix_on_every_line() {
    let g = grid(&["W"]);
    assert_eq!(DumpGrid("> ", &g).to_string(), ">     0 \n>  0 (@)");
}

#[test]
fn dump_numbers_beyond_nine() {
    let g = Array2::new(1, 11, vec![Cell::Empty; 11]).unwrap();
    let text = DumpGrid("", &g).to_string();
    assert!(text.starts_with("    0  1  2  3  4  5  6  7  8  9 10 \n"));
}

#[test]
fn fmt_path_of_each_step() {
    let path = vec![
        SolveStep::ApplySolid2x2(1, 2, Cell::White),
        SolveStep::ApplyCheckerboard2x2(0, 10, Cell::Black),
        SolveStep::ApplyBorder(vec![(0, 1, Cell::Black)]),
        SolveStep::ApplyConnectivity(Vec::new()),
    ];
    assert_eq!(
        fmt_path(&path),
        "2x2 forces 1,2 to white (solid)\n\
         2x2 forces 0,10 to black (checkerboard)\n\
         apply border logic\n\
         apply connectivity logic\n"
    );
}

#[test]
fn fmt_path_indents_steps_under_a_hypothesis() {
    let path = vec![SolveStep::ApplyPbc(
        3,
        4,
        Cell::Black,
        vec![
            SolveStep::ApplySolid2x2(0, 0, Cell::Black),
            SolveStep::ApplyPbc(1, 1, Cell::White, vec![SolveStep::ApplyConnectivity(Vec::new())]),
        ],
    )];
    assert_eq!(
        fmt_path(&path),
        "pbc at 3,4 forces black; if white:\n  2x2 forces 0,0 to black (solid)\n  pbc at 1,1 forces white; if black:\n    apply connectivity logic\n"
    );
}

#[test]
fn fmt_path_of_nothing_is_empty() {
    assert_eq!(fmt_path(&[]), "");
}

#[test]
fn list_item_without_sub_items() {
    let g = grid(&["B.", ".W"]);
    assert_eq!(grid_list_item(&g, "start", &Vec::new()), "<li data-puz=\"B./.W\">start</li>");
}

#[test]
fn list_item_with_sub_items() {
    let g = grid(&["B"]);
    let items = vec!["<li>a</li>".to_string(), "<li>b</li>".to_string()];
    assert_eq!(
        grid_list_item(&g, "x", &items),
        "<li data-puz=\"B\">x<ul><li>a</li><li>b</li></ul></li>"
    );
}

#[test]
fn html_item_of_pbc_shows_the_hypothesis() {
    let mut g = grid(&["BB", "B."]);
    let item = step_to_html_list_item(&mut g, &SolveStep::ApplyPbc(1, 1, Cell::White, Vec::new()));
    assert_eq!(
        item,
        "<li data-puz=\"BB/BW\">proof by contradiction<ul><li data-puz=\"BB/BB\">hypothesis</li></ul></li>"
    );
    assert_eq!(g.get(1, 1), Cell::White);
}

#[test]
fn html_item_of_2x2_step() {
    let mut g = grid(&[".W", "WB"]);
    let item = step_to_html_list_item(&mut g, &SolveStep::ApplyCheckerboard2x2(0, 0, Cell::White));
    assert_eq!(item, "<li data-puz=\"WW/WB\">avoid 2x2 checkered</li>");
}

#[test]
fn html_items_follow_the_path() {
    let g = grid(&["B..B"]);
    let path = vec![
        SolveStep::ApplyBorder(vec![(0, 1, Cell::Black)]),
        SolveStep::ApplySolid2x2(0, 2, Cell::Black),
    ];
    assert_eq!(
        path_to_html_list_items(&g, &path),
        "<li data-puz=\"BB.B\">apply border logic</li><li data-puz=\"BBBB\">avoid 2x2 solid</li>"
    );
}

#[test]
fn html_list_has_start_steps_and_done() {
    let start = grid(&["B.B"]);
    let done = grid(&["BBB"]);
    let path = vec![SolveStep::ApplyConnectivity(vec![(0, 1, Cell::Black)])];
    assert_eq!(
        path_to_html_list(&start, &done, &path),
        "<ul id=\"path\"><li data-puz=\"B.B\">start</li><li data-puz=\"BBB\">apply connectivity</li><li data-puz=\"BBB\">done</li></ul>"
    );
}

#[test]
fn path_fits_checks_every_named_cell() {
    let inside = vec![SolveStep::ApplyConnectivity(vec![(0, 1, Cell::Black)])];
    assert!(path_fits(1, 3, &inside));
    let outside = vec![SolveStep::ApplyConnectivity(vec![(0, 5, Cell::Black)])];
    assert!(!path_fits(1, 3, &outside));
    let nested = vec![SolveStep::ApplyPbc(0, 0, Cell::Black, vec![SolveStep::ApplySolid2x2(2, 0, Cell::White)])];
    assert!(!path_fits(2, 2, &nested));
    assert!(path_fits(3, 1, &nested));
    assert!(step_fits_grid(1, 1, &SolveStep::ApplySolid2x2(0, 0, Cell::White)));
    assert!(!step_fits_grid(1, 1, &SolveStep::ApplyCheckerboard2x2(0, 1, Cell::White)));
}

#[test]
fn guess_by_scheme_then_extension() {
    assert_eq!(InputFormat::guess("https://puzz.link/p?yinyang/2/2/0"), Some(InputFormat::Url));
    assert_eq!(InputFormat::guess("puzzle.png"), Some(InputFormat::Image));
    assert_eq!(InputFormat::guess("https://example.com/a.png"), Some(InputFormat::Url));
    assert_eq!(InputFormat::guess("http://puzz.link/p?x"), None);
    assert_eq!(InputFormat::guess("puzzle.txt"), None);
}

#[test]
fn prefix_and_suffix_tests() {
    assert!(starts_with("https://x", "https://"));
    assert!(!starts_with("http", "https://"));
    assert!(ends_with("a.png", ".png"));
    assert!(!ends_with("png", ".png"));
    assert!(ends_with("", ""));
}

#[test]
fn split_url_needs_http_scheme() {
    assert_eq!(
        split_puzzle_url("ftp://puzz.link/p?yinyang"),
        Err("input does not appear to be a url".to_string())
    );
}

#[test]
fn split_url_needs_query() {
    assert_eq!(
        split_puzzle_url("https://puzz.link/p"),
        Err("url has no query delimiter ('?')".to_string())
    );
}

#[test]
fn split_url_at_first_question_mark() {
    assert_eq!(
        split_puzzle_url("https://puzz.link/p?yinyang/3/3/abc"),
        Ok(("https://puzz.link/p".to_string(), "yinyang/3/3/abc".to_string()))
    );
    assert_eq!(split_puzzle_url("http://a?b?c"), Ok(("http://a".to_string(), "b?c".to_string())));
}

#[test]
fn known_sites() {
    assert!(is_known_puzzle_site("https://puzz.link/p"));
    assert!(is_known_puzzle_site("http://pzprxs.vercel.app/p"));
    assert!(is_known_puzzle_site("https://pzv.jp/p.html"));
    assert!(!is_known_puzzle_site("https://example.com/p"));
}

#[test]
fn url_on_default_site() {
    assert_eq!(puzzle_url("yinyang/2/2/0"), "https://puzz.link/p?yinyang/2/2/0");
}

#[test]
fn replaying_the_solve_path_gives_the_result() {
    for rows in [vec!["B.W", "W.W"], vec!["B.B", "...", "W.."], vec!["BB.", "B..", "..W"]] {
        let input = grid(&rows);
        let mut path: Option<SolvePath> = Some(Vec::new());
        let result = match solve(input.copy(), &mut path) {
            SolveResult::Solved(g) => g,
            SolveResult::Partial(g) => g,
            SolveResult::NoSolutions => panic!("unexpected contradiction"),
        };
        let steps = path.unwrap();
        assert!(!steps.is_empty());
        let mut replayed = input.copy();
        for step in steps.iter() {
            step_to_html_list_item(&mut replayed, step);
        }
        assert_eq!(replayed.data, result.data);
    }
}

#[test]
fn fmt_path_of_joined_paths_is_joined_text() {
    let a = vec![SolveStep::ApplySolid2x2(1, 1, Cell::White), SolveStep::ApplyBorder(vec![(0, 1, Cell::Black)])];
    let b = vec![SolveStep::ApplyPbc(0, 2, Cell::Black, vec![SolveStep::ApplyConnectivity(Vec::new())])];
    let mut ab = Vec::new();
    ab.push(SolveStep::ApplySolid2x2(1, 1, Cell::White));
    ab.push(SolveStep::ApplyBorder(vec![(0, 1, Cell::Black)]));
    ab.push(SolveStep::ApplyPbc(0, 2, Cell::Black, vec![SolveStep::ApplyConnectivity(Vec::new())]));
    assert_eq!(fmt_path(&ab), format!("{}{}", fmt_path(&a), fmt_path(&b)));
}
