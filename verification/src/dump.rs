use vstd::prelude::*;

use crate::cell::Cell;
use crate::text::{chars_to_string, decimal_width2, push_decimal_width2, push_str};
use crate::Grid;

verus! {

/// A grid drawn for debugging, each line starting with a prefix.
pub struct DumpGrid<'g>(pub &'static str, pub &'g Grid);

/// How a cell is drawn in a dump.
pub open spec fn dump_cell(c: Cell) -> Seq<char> {
    match c {
        Cell::Empty => seq![' ', '-', ' '],
        Cell::Black => seq!['(', ' ', ')'],
        Cell::White => seq!['(', '@', ')'],
    }
}

/// The column numbers 0, ..., n - 1, each two wide and followed by a space.
pub open spec fn dump_header(n: int) -> Seq<char>
    decreases n,
{
    if n <= 0 {
        Seq::empty()
    } else {
        dump_header(n - 1) + decimal_width2((n - 1) as nat) + seq![' ']
    }
}

/// The first `n` cells of row `r`.
pub open spec fn dump_row(g: Grid, r: int, n: int) -> Seq<char>
    decreases n,
{
    if n <= 0 {
        Seq::empty()
    } else {
        dump_row(g, r, n - 1) + dump_cell(g.at(r, n - 1))
    }
}

/// Rows 0, ..., m - 1, each on a new line after the prefix and the row number.
pub open spec fn dump_rows(pfx: Seq<char>, g: Grid, m: int) -> Seq<char>
    decreases m,
{
    if m <= 0 {
        Seq::empty()
    } else {
        dump_rows(pfx, g, m - 1) + seq!['\n'] + pfx + decimal_width2((m - 1) as nat) + seq![' ']
            + dump_row(g, m - 1, g.cols as int)
    }
}

/// The dump of `g` with `pfx` before every line: a header of column numbers,
/// then each row after its number.
pub open spec fn dump_text(pfx: Seq<char>, g: Grid) -> Seq<char> {
    pfx + seq![' ', ' ', ' '] + dump_header(g.cols as int) + dump_rows(pfx, g, g.rows as int)
}

impl<'g> DumpGrid<'g> {
    /// The drawing: a header of column numbers, then one line per row with its
    /// number, an empty cell drawn " - ", a black one "( )" and a white one "(@)".
    pub fn to_string(&self) -> (res: String)
        requires
            self.1.wf(),
        ensures
            res@ == dump_text(self.0@, *self.1),
    {
        let pfx = self.0;
        let g = self.1;
        let mut f: Vec<char> = Vec::new();
        push_str(&mut f, pfx);
        f.push(' ');
        f.push(' ');
        f.push(' ');
        let mut c: usize = 0;
        while c < g.cols
            invariant
                c <= g.cols,
                f@ == pfx@ + seq![' ', ' ', ' '] + dump_header(c as int),
            decreases g.cols - c,
        {
            push_decimal_width2(&mut f, c);
            f.push(' ');
            proof {
                assert(f@ =~= pfx@ + seq![' ', ' ', ' '] + dump_header(c + 1));
            }
            c = c + 1;
        }
        let ghost head = f@;
        let mut r: usize = 0;
        while r < g.rows
            invariant
                g.wf(),
                r <= g.rows,
                head == pfx@ + seq![' ', ' ', ' '] + dump_header(g.cols as int),
                f@ == head + dump_rows(pfx@, *g, r as int),
            decreases g.rows - r,
        {
            f.push('\n');
            push_str(&mut f, pfx);
            push_decimal_width2(&mut f, r);
            f.push(' ');
            let ghost line = f@;
            let mut c: usize = 0;
            while c < g.cols
                invariant
                    g.wf(),
                    r < g.rows,
                    c <= g.cols,
                    f@ == line + dump_row(*g, r as int, c as int),
                decreases g.cols - c,
            {
                match g.get(r, c) {
                    Cell::Empty => {
                        f.push(' ');
                        f.push('-');
                        f.push(' ');
                    },
                    Cell::Black => {
                        f.push('(');
                        f.push(' ');
                        f.push(')');
                    },
                    Cell::White => {
                        f.push('(');
                        f.push('@');
                        f.push(')');
                    },
                }
                proof {
                    assert(f@ =~= line + dump_row(*g, r as int, c + 1));
                }
                c = c + 1;
            }
            proof {
                assert(f@ =~= head + dump_rows(pfx@, *g, r + 1));
            }
            r = r + 1;
        }
        chars_to_string(f)
    }
}

} // verus!
