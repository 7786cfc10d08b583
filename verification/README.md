# yin_yang_solver

A solver for yin-yang puzzles, verified with Verus. A yin-yang grid is filled
with black and white so that the cells of each colour form one orthogonally
connected region and no 2x2 block is solid or checkered.

The solver repeats the first rule that fills in anything:

- `apply_2x2`: a cell that would complete a forbidden 2x2 block takes the
  other colour;
- `apply_border`: empty border cells between two border cells of one colour
  take that colour;
- `apply_connectivity`: cut cells (cells every path between two cells of a
  colour must cross) take that colour, then regions of empty cells next to one
  colour only take it (`isolation`). The regions are told apart by their first
  cell, with unreached cells counted in the region of the top-left cell: so
  when the top-left cell is empty and its region lies next to one colour only,
  every empty cell of the grid takes that colour;
- `apply_pbc`: proof by contradiction, a few rounds of the rules above under
  a hypothesis.

`rules::check` says whether a grid is solved, unsolved or contradictory, and
`solve::solve` runs the rules to the end, recording each step in a solve path
that `solve_path::fmt_path` and `output` turn into text and HTML.

## Layout

- `src/`: the library, every function with its contract. Each pass states
  exactly what it leaves of the grid and which steps it records, and `solve`
  states the steps of each round in turn. The isolation step lists its cells
  region by region, in row-major order of the regions' first cells; the steps
  of the cut-cell passes name the cells they filled in depth-first order,
  which is not stated. The proof
  functions named `lemma_*_keeps_solutions` state when the 2x2, cut-cell,
  isolation and connectivity passes keep every solution; no such statement is
  made for the border rule or for proof by contradiction.
- `tests/`: tests of the library on concrete grids.
- `app/`: the command-line program: argument parsing, loading a puzzle from an
  image or a puzzle URL, and writing the result.
