use vstd::prelude::*;

use crate::cell::{opposite, Cell};
use crate::ext::CellExt;
use crate::replay::{apply_changes, replay, step_effect};
use crate::solve_path::SolveStep;
use crate::text::{chars_to_string, push_str};
use crate::Grid;

verus! {

/// The letter of a cell: '.', 'B' or 'W'.
pub open spec fn cell_letter(c: Cell) -> char {
    match c {
        Cell::Empty => '.',
        Cell::Black => 'B',
        Cell::White => 'W',
    }
}

fn letter(c: Cell) -> (res: char)
    ensures
        res == cell_letter(c),
{
    match c {
        Cell::Empty => '.',
        Cell::Black => 'B',
        Cell::White => 'W',
    }
}

/// The first `n` cells of row `r`, separated by spaces.
pub open spec fn ascii_row(g: Grid, r: int, n: int) -> Seq<char>
    decreases n,
{
    if n <= 0 {
        Seq::empty()
    } else {
        ascii_row(g, r, n - 1) + (if n - 1 != 0 {
            seq![' ']
        } else {
            Seq::empty()
        }) + seq![cell_letter(g.at(r, n - 1))]
    }
}

/// Rows 0, ..., m - 1, each ended by a new line.
pub open spec fn ascii_rows(g: Grid, m: int) -> Seq<char>
    decreases m,
{
    if m <= 0 {
        Seq::empty()
    } else {
        ascii_rows(g, m - 1) + ascii_row(g, m - 1, g.cols as int) + seq!['\n']
    }
}

/// The grid as text: one line per row, the cells as '.', 'B' and 'W'
/// separated by spaces.
pub fn format_ascii(g: &Grid) -> (res: String)
    requires
        g.wf(),
    ensures
        res@ == ascii_rows(*g, g.rows as int),
{
    let mut f: Vec<char> = Vec::new();
    let mut r: usize = 0;
    while r < g.rows
        invariant
            g.wf(),
            r <= g.rows,
            f@ == ascii_rows(*g, r as int),
        decreases g.rows - r,
    {
        let ghost line = f@;
        let mut c: usize = 0;
        while c < g.cols
            invariant
                g.wf(),
                r < g.rows,
                c <= g.cols,
                f@ == line + ascii_row(*g, r as int, c as int),
            decreases g.cols - c,
        {
            if c != 0 {
                f.push(' ');
            }
            f.push(letter(g.get(r, c)));
            proof {
                assert(f@ =~= line + ascii_row(*g, r as int, c + 1));
            }
            c = c + 1;
        }
        f.push('\n');
        proof {
            assert(f@ =~= ascii_rows(*g, r + 1));
        }
        r = r + 1;
    }
    chars_to_string(f)
}

/// A cell as coloured squares: two spaces, a white square for black and a
/// black square for white.
pub open spec fn colour_glyph(c: Cell) -> Seq<char> {
    match c {
        Cell::Empty => seq![' ', ' '],
        Cell::Black => seq!['\u{2b1c}'],
        Cell::White => seq!['\u{2b1b}'],
    }
}

/// The first `n` squares of row `r`.
pub open spec fn colour_row(g: Grid, r: int, n: int) -> Seq<char>
    decreases n,
{
    if n <= 0 {
        Seq::empty()
    } else {
        colour_row(g, r, n - 1) + colour_glyph(g.at(r, n - 1))
    }
}

/// The first `m` rows of squares, each ending in a newline.
pub open spec fn colour_rows(g: Grid, m: int) -> Seq<char>
    decreases m,
{
    if m <= 0 {
        Seq::empty()
    } else {
        colour_rows(g, m - 1) + colour_row(g, m - 1, g.cols as int) + seq!['\n']
    }
}

/// The grid drawn with coloured squares, one line per row.
pub fn format_colors(g: &Grid) -> (res: String)
    requires
        g.wf(),
    ensures
        res@ == colour_rows(*g, g.rows as int),
{
    let mut f: Vec<char> = Vec::new();
    let mut r: usize = 0;
    while r < g.rows
        invariant
            g.wf(),
            r <= g.rows,
            f@ == colour_rows(*g, r as int),
        decreases g.rows - r,
    {
        let ghost line = f@;
        let mut c: usize = 0;
        while c < g.cols
            invariant
                g.wf(),
                r < g.rows,
                c <= g.cols,
                f@ == line + colour_row(*g, r as int, c as int),
            decreases g.cols - c,
        {
            match g.get(r, c) {
                Cell::Empty => {
                    f.push(' ');
                    f.push(' ');
                },
                Cell::Black => {
                    f.push('\u{2b1c}');
                },
                Cell::White => {
                    f.push('\u{2b1b}');
                },
            }
            proof {
                assert(f@ =~= line + colour_row(*g, r as int, c + 1));
            }
            c = c + 1;
        }
        f.push('\n');
        proof {
            assert(f@ =~= colour_rows(*g, r + 1));
        }
        r = r + 1;
    }
    chars_to_string(f)
}

/// The first `n` cells of row `r` of the row-major `cells`, as letters.
pub open spec fn puz_row(cells: Seq<Cell>, cols: int, r: int, n: int) -> Seq<char>
    decreases n,
{
    if n <= 0 {
        Seq::empty()
    } else {
        puz_row(cells, cols, r, n - 1) + seq![cell_letter(cells[r * cols + n - 1])]
    }
}

/// Rows 0, ..., m - 1 as letters, separated by '/'.
pub open spec fn puz_rows(cells: Seq<Cell>, cols: int, m: int) -> Seq<char>
    decreases m,
{
    if m <= 0 {
        Seq::empty()
    } else {
        puz_rows(cells, cols, m - 1) + (if m - 1 != 0 {
            seq!['/']
        } else {
            Seq::empty()
        }) + puz_row(cells, cols, m - 1, cols)
    }
}

/// The first `n` texts, one after another.
pub open spec fn concat_items(items: Seq<Seq<char>>, n: int) -> Seq<char>
    decreases n,
{
    if n <= 0 || n > items.len() {
        Seq::empty()
    } else {
        concat_items(items, n - 1) + items[n - 1]
    }
}

/// An HTML list item for a grid: the grid in its `data-puz` attribute, the
/// label, and the sub-items in a nested list when there are any.
pub open spec fn list_item(
    rows: int,
    cols: int,
    cells: Seq<Cell>,
    label: Seq<char>,
    items: Seq<Seq<char>>,
) -> Seq<char> {
    "<li data-puz=\""@ + puz_rows(cells, cols, rows) + "\">"@ + label + (if items.len() > 0 {
        "<ul>"@ + concat_items(items, items.len() as int) + "</ul>"@
    } else {
        Seq::empty()
    }) + "</li>"@
}

/// The characters of each string.
pub open spec fn string_views(v: Seq<String>) -> Seq<Seq<char>> {
    v.map_values(|s: String| s@)
}

/// The list item of a grid, with a label and sub-items.
pub fn grid_list_item(g: &Grid, label: &str, items: &Vec<String>) -> (res: String)
    requires
        g.wf(),
    ensures
        res@ == list_item(g.rows as int, g.cols as int, g.data@, label@, string_views(items@)),
{
    let mut f: Vec<char> = Vec::new();
    push_str(&mut f, "<li data-puz=\"");
    let ghost start = f@;
    let mut r: usize = 0;
    while r < g.rows
        invariant
            g.wf(),
            r <= g.rows,
            f@ == start + puz_rows(g.data@, g.cols as int, r as int),
        decreases g.rows - r,
    {
        if r != 0 {
            f.push('/');
        }
        let ghost line = f@;
        let mut c: usize = 0;
        while c < g.cols
            invariant
                g.wf(),
                r < g.rows,
                c <= g.cols,
                f@ == line + puz_row(g.data@, g.cols as int, r as int, c as int),
            decreases g.cols - c,
        {
            f.push(letter(g.get(r, c)));
            proof {
                assert(f@ =~= line + puz_row(g.data@, g.cols as int, r as int, c + 1));
            }
            c = c + 1;
        }
        proof {
            assert(f@ =~= start + puz_rows(g.data@, g.cols as int, r + 1));
        }
        r = r + 1;
    }
    push_str(&mut f, "\">");
    push_str(&mut f, label);
    let ghost views = string_views(items@);
    if items.len() > 0 {
        push_str(&mut f, "<ul>");
        let ghost before = f@;
        let mut i: usize = 0;
        while i < items.len()
            invariant
                i <= items@.len(),
                views == string_views(items@),
                f@ == before + concat_items(views, i as int),
            decreases items@.len() - i,
        {
            push_str(&mut f, items[i].as_str());
            proof {
                assert(f@ =~= before + concat_items(views, i + 1));
            }
            i = i + 1;
        }
        push_str(&mut f, "</ul>");
    }
    push_str(&mut f, "</li>");
    proof {
        assert(f@ =~= list_item(g.rows as int, g.cols as int, g.data@, label@, views));
    }
    chars_to_string(f)
}

/// The cells after the list item of a step are those the step writes.
proof fn lemma_step_html_effect(rows: int, cols: int, cells: Seq<Cell>, step: SolveStep)
    ensures
        step_html(rows, cols, cells, step).1 == step_effect(cols, cells, step),
{
    match step {
        SolveStep::ApplySolid2x2(_, _, _) => {},
        SolveStep::ApplyCheckerboard2x2(_, _, _) => {},
        SolveStep::ApplyBorder(_) => {},
        SolveStep::ApplyConnectivity(_) => {},
        SolveStep::ApplyPbc(_, _, _, _) => {},
    }
}

/// The cells after the list items of the first `n` steps are those that
/// replaying the steps gives: the last grid drawn for a path is its replay.
pub proof fn lemma_html_replays(rows: int, cols: int, cells: Seq<Cell>, steps: Seq<SolveStep>, n: int)
    requires
        0 <= n <= steps.len(),
    ensures
        steps_html(rows, cols, cells, steps, n).1 == replay(cols, cells, steps.take(n)),
    decreases n,
{
    if n > 0 {
        lemma_html_replays(rows, cols, cells, steps, n - 1);
        assert(steps.take(n).drop_last() =~= steps.take(n - 1));
        assert(steps.take(n).last() == steps[n - 1]);
        let prev = steps_html(rows, cols, cells, steps, n - 1).1;
        lemma_step_html_effect(rows, cols, prev, steps[n - 1]);
    } else {
        assert(steps.take(0) =~= Seq::<SolveStep>::empty());
    }
}

/// Every position a step names lies in a `rows` x `cols` grid.
pub open spec fn step_fits(rows: int, cols: int, step: SolveStep) -> bool
    decreases step, 0int,
{
    match step {
        SolveStep::ApplySolid2x2(r, c, _) => r < rows && c < cols,
        SolveStep::ApplyCheckerboard2x2(r, c, _) => r < rows && c < cols,
        SolveStep::ApplyBorder(ch) => forall|j: int|
            0 <= j < ch@.len() ==> #[trigger] ch@[j].0 < rows && ch@[j].1 < cols,
        SolveStep::ApplyConnectivity(ch) => forall|j: int|
            0 <= j < ch@.len() ==> #[trigger] ch@[j].0 < rows && ch@[j].1 < cols,
        SolveStep::ApplyPbc(r, c, _, steps) => r < rows && c < cols && steps_fit(
            rows,
            cols,
            steps@,
            steps@.len() as int,
        ),
    }
}

/// Every position the first `n` steps name lies in a `rows` x `cols` grid.
pub open spec fn steps_fit(rows: int, cols: int, steps: Seq<SolveStep>, n: int) -> bool
    decreases steps, n,
{
    if n <= 0 || n > steps.len() {
        true
    } else {
        steps_fit(rows, cols, steps, n - 1) && step_fits(rows, cols, steps[n - 1])
    }
}

/// The list item of one step, drawn on the grid `cells` after the step, and the
/// cells after it. A proof by contradiction gets, as sub-items, the grid with
/// the hypothesis and the items of the steps made under it.
pub open spec fn step_html(rows: int, cols: int, cells: Seq<Cell>, step: SolveStep) -> (Seq<char>, Seq<Cell>)
    decreases step, 0int,
{
    match step {
        SolveStep::ApplySolid2x2(r, c, cell) => {
            let next = cells.update(r * cols + c, cell);
            (list_item(rows, cols, next, "avoid 2x2 solid"@, Seq::empty()), next)
        },
        SolveStep::ApplyCheckerboard2x2(r, c, cell) => {
            let next = cells.update(r * cols + c, cell);
            (list_item(rows, cols, next, "avoid 2x2 checkered"@, Seq::empty()), next)
        },
        SolveStep::ApplyBorder(ch) => {
            let next = apply_changes(cells, cols, ch@, ch@.len() as int);
            (list_item(rows, cols, next, "apply border logic"@, Seq::empty()), next)
        },
        SolveStep::ApplyConnectivity(ch) => {
            let next = apply_changes(cells, cols, ch@, ch@.len() as int);
            (list_item(rows, cols, next, "apply connectivity"@, Seq::empty()), next)
        },
        SolveStep::ApplyPbc(r, c, cell, steps) => {
            let hyp = cells.update(r * cols + c, opposite(cell));
            let first = list_item(rows, cols, hyp, "hypothesis"@, Seq::empty());
            let subs = steps_html(rows, cols, hyp, steps@, steps@.len() as int).0;
            let next = cells.update(r * cols + c, cell);
            (list_item(rows, cols, next, "proof by contradiction"@, seq![first] + subs), next)
        },
    }
}

/// The list items of the first `n` steps, each drawn on the grid left by the
/// steps before it, and the cells after them.
pub open spec fn steps_html(rows: int, cols: int, cells: Seq<Cell>, steps: Seq<SolveStep>, n: int) -> (Seq<
    Seq<char>,
>, Seq<Cell>)
    decreases steps, n,
{
    if n <= 0 || n > steps.len() {
        (Seq::empty(), cells)
    } else {
        let prev = steps_html(rows, cols, cells, steps, n - 1);
        let last = step_html(rows, cols, prev.1, steps[n - 1]);
        (prev.0.push(last.0), last.1)
    }
}

fn apply_change_list(grid: &mut Grid, ch: &Vec<(usize, usize, Cell)>)
    requires
        old(grid).wf(),
        forall|j: int| 0 <= j < ch@.len() ==> #[trigger] ch@[j].0 < old(grid).rows && ch@[j].1 < old(grid).cols,
    ensures
        final(grid).wf(),
        final(grid).rows == old(grid).rows,
        final(grid).cols == old(grid).cols,
        final(grid).data@ == apply_changes(old(grid).data@, old(grid).cols as int, ch@, ch@.len() as int),
{
    let mut i: usize = 0;
    while i < ch.len()
        invariant
            grid.wf(),
            grid.rows == old(grid).rows,
            grid.cols == old(grid).cols,
            i <= ch@.len(),
            forall|j: int| 0 <= j < ch@.len() ==> #[trigger] ch@[j].0 < grid.rows && ch@[j].1 < grid.cols,
            grid.data@ == apply_changes(old(grid).data@, old(grid).cols as int, ch@, i as int),
        decreases ch@.len() - i,
    {
        let (r, c, cell) = ch[i];
        proof {
            assert(ch@[i as int].0 < grid.rows);
        }
        grid.set(r, c, cell);
        i = i + 1;
    }
}

/// The list item of one step; `grid` becomes the grid after the step.
pub fn step_to_html_list_item(grid: &mut Grid, step: &SolveStep) -> (res: String)
    requires
        old(grid).wf(),
        step_fits(old(grid).rows as int, old(grid).cols as int, *step),
    ensures
        final(grid).wf(),
        final(grid).rows == old(grid).rows,
        final(grid).cols == old(grid).cols,
        res@ == step_html(old(grid).rows as int, old(grid).cols as int, old(grid).data@, *step).0,
        final(grid).data@ == step_html(old(grid).rows as int, old(grid).cols as int, old(grid).data@, *step).1,
    decreases *step, 0int,
{
    let ghost rows = grid.rows as int;
    let ghost cols = grid.cols as int;
    let no_items: Vec<String> = Vec::new();
    proof {
        assert(string_views(no_items@) =~= Seq::<Seq<char>>::empty());
    }
    match step {
        SolveStep::ApplySolid2x2(r, c, cell) => {
            grid.set(*r, *c, *cell);
            grid_list_item(grid, "avoid 2x2 solid", &no_items)
        },
        SolveStep::ApplyCheckerboard2x2(r, c, cell) => {
            grid.set(*r, *c, *cell);
            grid_list_item(grid, "avoid 2x2 checkered", &no_items)
        },
        SolveStep::ApplyBorder(items) => {
            apply_change_list(grid, items);
            grid_list_item(grid, "apply border logic", &no_items)
        },
        SolveStep::ApplyConnectivity(items) => {
            apply_change_list(grid, items);
            grid_list_item(grid, "apply connectivity", &no_items)
        },
        SolveStep::ApplyPbc(r, c, cell, hyppath) => {
            let mut hyp = grid.copy();
            hyp.set(*r, *c, cell.inv());
            let mut hypitems: Vec<String> = Vec::new();
            hypitems.push(grid_list_item(&hyp, "hypothesis", &no_items));
            let ghost h0 = hyp.data@;
            html_items(&mut hyp, hyppath.as_slice(), &mut hypitems);
            grid.set(*r, *c, *cell);
            let res = grid_list_item(grid, "proof by contradiction", &hypitems);
            proof {
                let first = list_item(rows, cols, h0, "hypothesis"@, Seq::empty());
                let subs = steps_html(rows, cols, h0, hyppath@, hyppath@.len() as int).0;
                assert(string_views(hypitems@) =~= seq![first] + subs);
            }
            res
        },
    }
}

/// Appends the list items of `steps`, made one after another on `grid`.
fn html_items(grid: &mut Grid, steps: &[SolveStep], items: &mut Vec<String>)
    requires
        old(grid).wf(),
        steps_fit(old(grid).rows as int, old(grid).cols as int, steps@, steps@.len() as int),
    ensures
        final(grid).wf(),
        final(grid).rows == old(grid).rows,
        final(grid).cols == old(grid).cols,
        string_views(final(items)@) == string_views(old(items)@) + steps_html(
            old(grid).rows as int,
            old(grid).cols as int,
            old(grid).data@,
            steps@,
            steps@.len() as int,
        ).0,
        final(grid).data@ == steps_html(
            old(grid).rows as int,
            old(grid).cols as int,
            old(grid).data@,
            steps@,
            steps@.len() as int,
        ).1,
    decreases steps@, steps@.len() as int,
{
    let ghost rows = grid.rows as int;
    let ghost cols = grid.cols as int;
    let ghost cells0 = grid.data@;
    let ghost items0 = string_views(items@);
    let mut i: usize = 0;
    while i < steps.len()
        invariant
            grid.wf(),
            grid.rows == rows,
            grid.cols == cols,
            i <= steps@.len(),
            steps_fit(rows, cols, steps@, steps@.len() as int),
            string_views(items@) == items0 + steps_html(rows, cols, cells0, steps@, i as int).0,
            grid.data@ == steps_html(rows, cols, cells0, steps@, i as int).1,
        decreases steps@.len() - i,
    {
        proof {
            lemma_steps_fit(rows, cols, steps@, steps@.len() as int, i as int);
        }
        let item = step_to_html_list_item(grid, &steps[i]);
        let ghost before = string_views(items@);
        items.push(item);
        proof {
            assert(string_views(items@) =~= before.push(item@));
            assert(string_views(items@) =~= items0 + steps_html(rows, cols, cells0, steps@, i + 1).0);
        }
        i = i + 1;
    }
}

proof fn lemma_steps_fit(rows: int, cols: int, steps: Seq<SolveStep>, n: int, i: int)
    requires
        0 <= i < n <= steps.len(),
        steps_fit(rows, cols, steps, n),
    ensures
        step_fits(rows, cols, steps[i]),
    decreases n,
{
    if i < n - 1 {
        lemma_steps_fit(rows, cols, steps, n - 1, i);
    }
}

/// Whether every change of `ch` lies inside a `rows` by `cols` grid.
fn changes_fit(rows: usize, cols: usize, ch: &Vec<(usize, usize, Cell)>) -> (res: bool)
    ensures
        res == forall|j: int| 0 <= j < ch@.len() ==> #[trigger] ch@[j].0 < rows && ch@[j].1 < cols,
{
    let mut i: usize = 0;
    while i < ch.len()
        invariant
            i <= ch@.len(),
            forall|j: int| 0 <= j < i ==> #[trigger] ch@[j].0 < rows && ch@[j].1 < cols,
        decreases ch@.len() - i,
    {
        if ch[i].0 >= rows || ch[i].1 >= cols {
            return false;
        }
        i = i + 1;
    }
    true
}

/// Whether every cell that `step` names, nested steps included, lies inside a
/// `rows` by `cols` grid.
pub fn step_fits_grid(rows: usize, cols: usize, step: &SolveStep) -> (res: bool)
    ensures
        res == step_fits(rows as int, cols as int, *step),
    decreases *step, 0int,
{
    match step {
        SolveStep::ApplySolid2x2(r, c, _) => *r < rows && *c < cols,
        SolveStep::ApplyCheckerboard2x2(r, c, _) => *r < rows && *c < cols,
        SolveStep::ApplyBorder(ch) => changes_fit(rows, cols, ch),
        SolveStep::ApplyConnectivity(ch) => changes_fit(rows, cols, ch),
        SolveStep::ApplyPbc(r, c, _, steps) => *r < rows && *c < cols && path_fits(
            rows,
            cols,
            steps.as_slice(),
        ),
    }
}

/// Whether every cell that the steps of `path` name lies inside a `rows` by
/// `cols` grid: what the HTML rendering of a path asks of it.
pub fn path_fits(rows: usize, cols: usize, path: &[SolveStep]) -> (res: bool)
    ensures
        res == steps_fit(rows as int, cols as int, path@, path@.len() as int),
    decreases path@, path@.len() as int,
{
    let mut i: usize = 0;
    while i < path.len()
        invariant
            i <= path@.len(),
            steps_fit(rows as int, cols as int, path@, i as int),
        decreases path@.len() - i,
    {
        if !step_fits_grid(rows, cols, &path[i]) {
            proof {
                if steps_fit(rows as int, cols as int, path@, path@.len() as int) {
                    lemma_steps_fit_prefix(rows as int, cols as int, path@, path@.len() as int, i + 1);
                }
            }
            return false;
        }
        i = i + 1;
    }
    true
}

/// A path that fits fits in each of its prefixes.
proof fn lemma_steps_fit_prefix(rows: int, cols: int, steps: Seq<SolveStep>, n: int, m: int)
    requires
        0 <= m <= n <= steps.len(),
        steps_fit(rows, cols, steps, n),
    ensures
        steps_fit(rows, cols, steps, m),
    decreases n,
{
    if m < n {
        lemma_steps_fit_prefix(rows, cols, steps, n - 1, m);
    }
}

/// The list items of a whole path, starting from `grid`.
pub fn path_to_html_list_items(grid: &Grid, path: &[SolveStep]) -> (res: String)
    requires
        grid.wf(),
        steps_fit(grid.rows as int, grid.cols as int, path@, path@.len() as int),
    ensures
        ({
            let items = steps_html(grid.rows as int, grid.cols as int, grid.data@, path@, path@.len() as int).0;
            res@ == concat_items(items, items.len() as int)
        }),
{
    let mut g = grid.copy();
    let mut lis: Vec<String> = Vec::new();
    html_items(&mut g, path, &mut lis);
    let ghost views = string_views(lis@);
    proof {
        assert(views =~= steps_html(grid.rows as int, grid.cols as int, grid.data@, path@, path@.len() as int).0);
    }
    let mut f: Vec<char> = Vec::new();
    let mut i: usize = 0;
    while i < lis.len()
        invariant
            i <= lis@.len(),
            views == string_views(lis@),
            f@ == concat_items(views, i as int),
        decreases lis@.len() - i,
    {
        push_str(&mut f, lis[i].as_str());
        proof {
            assert(f@ =~= concat_items(views, i + 1));
        }
        i = i + 1;
    }
    chars_to_string(f)
}

/// The whole solve path as an HTML list: the start grid, the item of each
/// step, and the final grid.
pub fn path_to_html_list(grid: &Grid, final_grid: &Grid, path: &[SolveStep]) -> (res: String)
    requires
        grid.wf(),
        final_grid.wf(),
        steps_fit(grid.rows as int, grid.cols as int, path@, path@.len() as int),
    ensures
        ({
            let items = steps_html(grid.rows as int, grid.cols as int, grid.data@, path@, path@.len() as int).0;
            res@ == "<ul id=\"path\">"@ + list_item(
                grid.rows as int,
                grid.cols as int,
                grid.data@,
                "start"@,
                Seq::empty(),
            ) + concat_items(items, items.len() as int) + list_item(
                final_grid.rows as int,
                final_grid.cols as int,
                final_grid.data@,
                "done"@,
                Seq::empty(),
            ) + "</ul>"@
        }),
{
    let lis = path_to_html_list_items(grid, path);
    let no_items: Vec<String> = Vec::new();
    proof {
        assert(string_views(no_items@) =~= Seq::<Seq<char>>::empty());
    }
    let start = grid_list_item(grid, "start", &no_items);
    let done = grid_list_item(final_grid, "done", &no_items);
    let mut f: Vec<char> = Vec::new();
    push_str(&mut f, "<ul id=\"path\">");
    push_str(&mut f, start.as_str());
    push_str(&mut f, lis.as_str());
    push_str(&mut f, done.as_str());
    push_str(&mut f, "</ul>");
    chars_to_string(f)
}

/// The items of the first `n` steps are each the item of its step drawn from
/// the cells that replaying the steps before it gives.
proof fn lemma_steps_html_items(rows: int, cols: int, cells: Seq<Cell>, steps: Seq<SolveStep>, n: int)
    requires
        0 <= n <= steps.len(),
    ensures
        steps_html(rows, cols, cells, steps, n).0 == Seq::new(
            n as nat,
            |j: int| step_html(rows, cols, replay(cols, cells, steps.take(j)), steps[j]).0,
        ),
    decreases n,
{
    if n > 0 {
        lemma_steps_html_items(rows, cols, cells, steps, n - 1);
        lemma_html_replays(rows, cols, cells, steps, n - 1);
        assert(steps_html(rows, cols, cells, steps, n).0 =~= Seq::new(
            n as nat,
            |j: int| step_html(rows, cols, replay(cols, cells, steps.take(j)), steps[j]).0,
        ));
    } else {
        assert(steps_html(rows, cols, cells, steps, n).0 =~= Seq::new(
            n as nat,
            |j: int| step_html(rows, cols, replay(cols, cells, steps.take(j)), steps[j]).0,
        ));
    }
}

/// The item of every step draws the grid as the step leaves it, under the
/// step's label; only a proof by contradiction has sub-items.
pub proof fn lemma_item_draws_grid_after(rows: int, cols: int, cells: Seq<Cell>, step: SolveStep)
    ensures
        exists|label: Seq<char>, items: Seq<Seq<char>>|
            step_html(rows, cols, cells, step).0 == list_item(rows, cols, step_effect(cols, cells, step), label, items),
        !(step is ApplyPbc) ==> step_html(rows, cols, cells, step).0 == list_item(
            rows,
            cols,
            step_effect(cols, cells, step),
            match step {
                SolveStep::ApplySolid2x2(_, _, _) => "avoid 2x2 solid"@,
                SolveStep::ApplyCheckerboard2x2(_, _, _) => "avoid 2x2 checkered"@,
                SolveStep::ApplyBorder(_) => "apply border logic"@,
                _ => "apply connectivity"@,
            },
            Seq::empty(),
        ),
{
    match step {
        SolveStep::ApplySolid2x2(_, _, _) => {
            assert(step_html(rows, cols, cells, step).0 == list_item(
                rows,
                cols,
                step_effect(cols, cells, step),
                "avoid 2x2 solid"@,
                Seq::empty(),
            ));
        },
        SolveStep::ApplyCheckerboard2x2(_, _, _) => {
            assert(step_html(rows, cols, cells, step).0 == list_item(
                rows,
                cols,
                step_effect(cols, cells, step),
                "avoid 2x2 checkered"@,
                Seq::empty(),
            ));
        },
        SolveStep::ApplyBorder(_) => {
            assert(step_html(rows, cols, cells, step).0 == list_item(
                rows,
                cols,
                step_effect(cols, cells, step),
                "apply border logic"@,
                Seq::empty(),
            ));
        },
        SolveStep::ApplyConnectivity(_) => {
            assert(step_html(rows, cols, cells, step).0 == list_item(
                rows,
                cols,
                step_effect(cols, cells, step),
                "apply connectivity"@,
                Seq::empty(),
            ));
        },
        SolveStep::ApplyPbc(r, c, cell, steps) => {
            let hyp = cells.update(r * cols + c, opposite(cell));
            let first = list_item(rows, cols, hyp, "hypothesis"@, Seq::empty());
            let subs = steps_html(rows, cols, hyp, steps@, steps@.len() as int).0;
            assert(step_html(rows, cols, cells, step).0 == list_item(
                rows,
                cols,
                step_effect(cols, cells, step),
                "proof by contradiction"@,
                seq![first] + subs,
            ));
        },
    }
}

/// The item of a proof by contradiction draws the grid with the cell forced,
/// and has as sub-items first the hypothesis grid (the cell holding the other
/// colour) and then, for each step made under the hypothesis, that step's
/// item drawn from the hypothesis grid with the steps before it replayed.
pub proof fn lemma_pbc_items_follow_hypothesis(
    rows: int,
    cols: int,
    cells: Seq<Cell>,
    r: usize,
    c: usize,
    k: Cell,
    steps: Vec<SolveStep>,
)
    ensures
        ({
            let hyp = cells.update(r * cols + c, opposite(k));
            step_html(rows, cols, cells, SolveStep::ApplyPbc(r, c, k, steps)).0 == list_item(
                rows,
                cols,
                cells.update(r * cols + c, k),
                "proof by contradiction"@,
                seq![list_item(rows, cols, hyp, "hypothesis"@, Seq::empty())] + Seq::new(
                    steps@.len(),
                    |j: int| step_html(rows, cols, replay(cols, hyp, steps@.take(j)), steps@[j]).0,
                ),
            )
        }),
{
    let hyp = cells.update(r * cols + c, opposite(k));
    lemma_steps_html_items(rows, cols, hyp, steps@, steps@.len() as int);
}

} // verus!
