use vstd::prelude::*;

use crate::cell::{opposite, Cell};
use crate::ext::CellExt;
use crate::text::{chars_to_string, decimal, push_decimal, push_str};

verus! {

/// One deduction of the solver, as it is recorded in a [`SolvePath`].
#[derive(Debug)]
pub enum SolveStep {
    /// (row, col, colour): the cell avoids a solid 2x2 block.
    ApplySolid2x2(usize, usize, Cell),
    /// (row, col, colour): the cell avoids a 2x2 checkerboard.
    ApplyCheckerboard2x2(usize, usize, Cell),
    /// The cells filled in from the border, each as (row, col, colour).
    ApplyBorder(Vec<(usize, usize, Cell)>),
    /// The cells filled in by connectivity, each as (row, col, colour).
    ApplyConnectivity(Vec<(usize, usize, Cell)>),
    /// (row, col, colour, steps): the cell holds the colour because giving it the
    /// other colour led, by `steps`, to a contradiction.
    ApplyPbc(usize, usize, Cell, Vec<SolveStep>),
}

/// The steps of a solve, in order.
pub type SolvePath = Vec<SolveStep>;

/// `new` is `old` with `steps` appended; no path stays no path.
pub open spec fn recorded(old: Option<SolvePath>, new: Option<SolvePath>, steps: Seq<SolveStep>) -> bool {
    match old {
        None => new is None,
        Some(v) => new is Some && new->0@ == v@ + steps,
    }
}

/// Recording no steps leaves the path as it is.
pub proof fn lemma_recorded_none(p: Option<SolvePath>)
    ensures
        recorded(p, p, Seq::empty()),
{
    if let Some(v) = p {
        assert(v@ + Seq::<SolveStep>::empty() =~= v@);
    }
}

/// Steps recorded one after another are recorded together.
pub proof fn lemma_recorded_trans(
    a: Option<SolvePath>,
    b: Option<SolvePath>,
    c: Option<SolvePath>,
    s1: Seq<SolveStep>,
    s2: Seq<SolveStep>,
)
    requires
        recorded(a, b, s1),
        recorded(b, c, s2),
    ensures
        recorded(a, c, s1 + s2),
{
    if let Some(v) = a {
        assert(v@ + s1 + s2 =~= v@ + (s1 + s2));
    }
}

/// Appends `step` to the path, if there is one.
pub fn record(path: &mut Option<SolvePath>, step: SolveStep)
    ensures
        recorded(*old(path), *final(path), seq![step]),
{
    match path {
        Some(p) => {
            let ghost before = p@;
            p.push(step);
            assert(p@ =~= before + seq![step]);
        },
        None => {},
    }
}

/// `old` is a prefix of `new`; no path stays no path.
pub open spec fn extends(old: Option<SolvePath>, new: Option<SolvePath>) -> bool {
    match old {
        None => new is None,
        Some(v) => new is Some && v@.len() <= new->0@.len() && new->0@.take(v@.len() as int) == v@,
    }
}

/// One step more or none at all.
pub proof fn lemma_extends_one(old: Option<SolvePath>, new: Option<SolvePath>)
    requires
        new == old || match old {
            None => new is None,
            Some(v) => new is Some && new->0@.len() == v@.len() + 1 && new->0@.drop_last() == v@,
        },
    ensures
        extends(old, new),
{
    if let Some(v) = old {
        if new == old {
            assert(v@.take(v@.len() as int) =~= v@);
        } else {
            assert(new->0@.take(v@.len() as int) =~= new->0@.drop_last());
        }
    }
}

/// Extension composes.
pub proof fn lemma_extends_trans(a: Option<SolvePath>, b: Option<SolvePath>, c: Option<SolvePath>)
    requires
        extends(a, b),
        extends(b, c),
    ensures
        extends(a, c),
{
    if let Some(v) = a {
        let w = b->0@;
        let x = c->0@;
        assert(x.take(v@.len() as int) =~= w.take(v@.len() as int)) by {
            assert forall|i: int| 0 <= i < v@.len() implies x.take(v@.len() as int)[i] == w.take(
                v@.len() as int,
            )[i] by {
                assert(x.take(w.len() as int)[i] == w[i]);
            }
        }
    }
}

/// A path with steps recorded extends the one before.
pub proof fn lemma_extends_recorded(a: Option<SolvePath>, b: Option<SolvePath>, s: Seq<SolveStep>)
    requires
        recorded(a, b, s),
    ensures
        extends(a, b),
{
    if let Some(v) = a {
        assert(b->0@.take(v@.len() as int) =~= v@);
    }
}

/// `new` is `old` with one more step, of which `ok` holds; no path stays no path.
pub open spec fn recorded_one(
    old: Option<SolvePath>,
    new: Option<SolvePath>,
    ok: spec_fn(SolveStep) -> bool,
) -> bool {
    match old {
        None => new is None,
        Some(v) => new is Some && new->0@.len() == v@.len() + 1 && new->0@.drop_last() == v@ && ok(
            new->0@.last(),
        ),
    }
}

/// `k` levels of indentation, two spaces each.
pub open spec fn indent_text(k: nat) -> Seq<char>
    decreases k,
{
    if k == 0 {
        Seq::empty()
    } else {
        indent_text((k - 1) as nat) + seq![' ', ' ']
    }
}

/// The name of a colour in the text of a solve path.
pub open spec fn colour_name(c: Cell) -> Seq<char> {
    match c {
        Cell::Empty => "empty"@,
        Cell::Black => "black"@,
        Cell::White => "white"@,
    }
}

/// The colour a step names (empty for the border and connectivity steps).
pub open spec fn step_colour(step: SolveStep) -> Cell {
    match step {
        SolveStep::ApplySolid2x2(_, _, cell) => cell,
        SolveStep::ApplyCheckerboard2x2(_, _, cell) => cell,
        SolveStep::ApplyPbc(_, _, cell, _) => cell,
        _ => Cell::Empty,
    }
}

/// How deeply proof-by-contradiction steps are nested in a step.
pub open spec fn step_nesting(step: SolveStep) -> nat
    decreases step, 0int,
{
    match step {
        SolveStep::ApplyPbc(_, _, _, steps) => 1 + steps_nesting(steps@, steps@.len() as int),
        _ => 0,
    }
}

/// How deeply proof-by-contradiction steps are nested in the first `n` steps.
pub open spec fn steps_nesting(steps: Seq<SolveStep>, n: int) -> nat
    decreases steps, n,
{
    if n <= 0 || n > steps.len() {
        0
    } else {
        let a = steps_nesting(steps, n - 1);
        let b = step_nesting(steps[n - 1]);
        if a >= b {
            a
        } else {
            b
        }
    }
}

/// The text of one step at indentation `indent`, with the steps under a
/// proof by contradiction one level deeper.
pub open spec fn step_text(indent: nat, step: SolveStep) -> Seq<char>
    decreases step, 0int,
{
    let colour = colour_name(step_colour(step));
    indent_text(indent) + match step {
        SolveStep::ApplySolid2x2(r, c, _) => "2x2 forces "@ + decimal(r as nat) + ","@ + decimal(c as nat)
            + " to "@ + colour + " (solid)\n"@,
        SolveStep::ApplyCheckerboard2x2(r, c, _) => "2x2 forces "@ + decimal(r as nat) + ","@ + decimal(
            c as nat,
        ) + " to "@ + colour + " (checkerboard)\n"@,
        SolveStep::ApplyBorder(_) => "apply border logic\n"@,
        SolveStep::ApplyConnectivity(_) => "apply connectivity logic\n"@,
        SolveStep::ApplyPbc(r, c, cell, steps) => "pbc at "@ + decimal(r as nat) + ","@ + decimal(
            c as nat,
        ) + " forces "@ + colour + "; if "@ + colour_name(opposite(cell)) + ":\n"@ + steps_text(
            indent + 1,
            steps@,
            steps@.len() as int,
        ),
    }
}

/// The text of the first `n` steps, one after another.
pub open spec fn steps_text(indent: nat, steps: Seq<SolveStep>, n: int) -> Seq<char>
    decreases steps, n,
{
    if n <= 0 || n > steps.len() {
        Seq::empty()
    } else {
        steps_text(indent, steps, n - 1) + step_text(indent, steps[n - 1])
    }
}

fn push_colour_name(out: &mut Vec<char>, c: Cell)
    ensures
        final(out)@ == old(out)@ + colour_name(c),
{
    match c {
        Cell::Empty => push_str(out, "empty"),
        Cell::Black => push_str(out, "black"),
        Cell::White => push_str(out, "white"),
    }
}

fn push_indent(f: &mut Vec<char>, indent: usize)
    ensures
        final(f)@ == old(f)@ + indent_text(indent as nat),
{
    let mut k: usize = 0;
    while k < indent
        invariant
            k <= indent,
            f@ == old(f)@ + indent_text(k as nat),
        decreases indent - k,
    {
        f.push(' ');
        f.push(' ');
        proof {
            assert(f@ =~= old(f)@ + indent_text((k + 1) as nat));
        }
        k = k + 1;
    }
}

/// "2x2 forces r,c to colour" followed by `tail`.
fn push_forces(f: &mut Vec<char>, r: usize, c: usize, colour: Cell, tail: &str)
    ensures
        final(f)@ == old(f)@ + "2x2 forces "@ + decimal(r as nat) + ","@ + decimal(c as nat) + " to "@
            + colour_name(colour) + tail@,
{
    push_str(f, "2x2 forces ");
    push_decimal(f, r);
    push_str(f, ",");
    push_decimal(f, c);
    push_str(f, " to ");
    push_colour_name(f, colour);
    push_str(f, tail);
    proof {
        assert(f@ =~= old(f)@ + "2x2 forces "@ + decimal(r as nat) + ","@ + decimal(c as nat) + " to "@
            + colour_name(colour) + tail@);
    }
}

/// "pbc at r,c forces colour; if other:" and a new line.
fn push_pbc_head(f: &mut Vec<char>, r: usize, c: usize, colour: Cell)
    ensures
        final(f)@ == old(f)@ + "pbc at "@ + decimal(r as nat) + ","@ + decimal(c as nat) + " forces "@
            + colour_name(colour) + "; if "@ + colour_name(opposite(colour)) + ":\n"@,
{
    push_str(f, "pbc at ");
    push_decimal(f, r);
    push_str(f, ",");
    push_decimal(f, c);
    push_str(f, " forces ");
    push_colour_name(f, colour);
    push_str(f, "; if ");
    push_colour_name(f, colour.inv());
    push_str(f, ":\n");
    proof {
        assert(f@ =~= old(f)@ + "pbc at "@ + decimal(r as nat) + ","@ + decimal(c as nat) + " forces "@
            + colour_name(colour) + "; if "@ + colour_name(opposite(colour)) + ":\n"@);
    }
}

#[verifier::rlimit(30)]
fn fmt_step(f: &mut Vec<char>, indent: usize, step: &SolveStep)
    requires
        indent + step_nesting(*step) < usize::MAX,
    ensures
        final(f)@ == old(f)@ + step_text(indent as nat, *step),
    decreases *step, 0int,
{
    push_indent(f, indent);
    let ghost pre = f@;
    let ghost it = indent_text(indent as nat);
    assert(pre == old(f)@ + it);
    match step {
        SolveStep::ApplySolid2x2(r, c, cell) => {
            push_forces(f, *r, *c, *cell, " (solid)\n");
            proof {
                let t = "2x2 forces "@ + decimal(*r as nat) + ","@ + decimal(*c as nat) + " to "@ + colour_name(
                    *cell,
                ) + " (solid)\n"@;
                assert(step_text(indent as nat, *step) == it + t);
                assert(f@ =~= pre + t);
                assert(f@ =~= old(f)@ + (it + t));
            }
        },
        SolveStep::ApplyCheckerboard2x2(r, c, cell) => {
            push_forces(f, *r, *c, *cell, " (checkerboard)\n");
            proof {
                let t = "2x2 forces "@ + decimal(*r as nat) + ","@ + decimal(*c as nat) + " to "@ + colour_name(
                    *cell,
                ) + " (checkerboard)\n"@;
                assert(step_text(indent as nat, *step) == it + t);
                assert(f@ =~= pre + t);
                assert(f@ =~= old(f)@ + (it + t));
            }
        },
        SolveStep::ApplyBorder(_) => {
            push_str(f, "apply border logic\n");
            proof {
                let t = "apply border logic\n"@;
                assert(step_text(indent as nat, *step) == it + t);
                assert(f@ =~= old(f)@ + (it + t));
            }
        },
        SolveStep::ApplyConnectivity(_) => {
            push_str(f, "apply connectivity logic\n");
            proof {
                let t = "apply connectivity logic\n"@;
                assert(step_text(indent as nat, *step) == it + t);
                assert(f@ =~= old(f)@ + (it + t));
            }
        },
        SolveStep::ApplyPbc(r, c, cell, steps) => {
            push_pbc_head(f, *r, *c, *cell);
            let ghost mid = f@;
            fmt_path_inner(f, indent + 1, steps.as_slice());
            proof {
                let h = "pbc at "@ + decimal(*r as nat) + ","@ + decimal(*c as nat) + " forces "@ + colour_name(
                    *cell,
                ) + "; if "@ + colour_name(opposite(*cell)) + ":\n"@;
                let sub = steps_text(indent as nat + 1, steps@, steps@.len() as int);
                assert(step_text(indent as nat, *step) == it + (h + sub));
                assert(mid =~= pre + h);
                assert(f@ =~= mid + sub);
                assert(f@ =~= old(f)@ + (it + (h + sub)));
            }
        },
    }
}

fn fmt_path_inner(f: &mut Vec<char>, indent: usize, path: &[SolveStep])
    requires
        indent + steps_nesting(path@, path@.len() as int) < usize::MAX,
    ensures
        final(f)@ == old(f)@ + steps_text(indent as nat, path@, path@.len() as int),
    decreases path@, path@.len() as int,
{
    let mut i: usize = 0;
    while i < path.len()
        invariant
            i <= path@.len(),
            indent + steps_nesting(path@, path@.len() as int) < usize::MAX,
            f@ == old(f)@ + steps_text(indent as nat, path@, i as int),
        decreases path@.len() - i,
    {
        proof {
            lemma_steps_nesting_bound(path@, path@.len() as int, i as int);
        }
        fmt_step(f, indent, &path[i]);
        proof {
            assert(f@ =~= old(f)@ + steps_text(indent as nat, path@, i + 1));
        }
        i = i + 1;
    }
}

proof fn lemma_steps_nesting_bound(steps: Seq<SolveStep>, n: int, i: int)
    requires
        0 <= i < n <= steps.len(),
    ensures
        step_nesting(steps[i]) <= steps_nesting(steps, n),
    decreases n,
{
    if i < n - 1 {
        lemma_steps_nesting_bound(steps, n - 1, i);
    }
}

/// The text of a path made of `a` and then `b` is the text of `a` followed by
/// the text of `b`; an empty path has no text.
pub proof fn lemma_steps_text_concat(indent: nat, a: Seq<SolveStep>, b: Seq<SolveStep>)
    ensures
        steps_text(indent, a + b, (a + b).len() as int) == steps_text(indent, a, a.len() as int) + steps_text(
            indent,
            b,
            b.len() as int,
        ),
        steps_text(indent, Seq::empty(), 0) == Seq::<char>::empty(),
    decreases b.len(),
{
    let ab = a + b;
    if b.len() == 0 {
        assert(ab =~= a);
        assert(steps_text(indent, a, a.len() as int) + Seq::<char>::empty() =~= steps_text(
            indent,
            a,
            a.len() as int,
        ));
    } else {
        let b1 = b.drop_last();
        lemma_steps_text_concat(indent, a, b1);
        lemma_steps_text_prefix(indent, ab, a + b1, (a + b1).len() as int);
        lemma_steps_text_prefix(indent, b, b1, b1.len() as int);
        assert(ab[ab.len() - 1] == b[b.len() - 1]);
    }
}

/// The text of the first `n` steps depends only on those steps.
proof fn lemma_steps_text_prefix(indent: nat, s: Seq<SolveStep>, t: Seq<SolveStep>, n: int)
    requires
        0 <= n <= t.len(),
        n <= s.len(),
        forall|i: int| 0 <= i < n ==> s[i] == t[i],
    ensures
        steps_text(indent, s, n) == steps_text(indent, t, n),
    decreases n,
{
    if n > 0 {
        lemma_steps_text_prefix(indent, s, t, n - 1);
    }
}

/// The solve path as text, one step per line; the steps made under a proof by
/// contradiction follow it, indented one level deeper.
pub fn fmt_path(path: &[SolveStep]) -> (res: String)
    requires
        steps_nesting(path@, path@.len() as int) < usize::MAX,
    ensures
        res@ == steps_text(0, path@, path@.len() as int),
{
    let mut f: Vec<char> = Vec::new();
    fmt_path_inner(&mut f, 0, path);
    proof {
        assert(f@ =~= steps_text(0, path@, path@.len() as int));
    }
    chars_to_string(f)
}

/// The name given to a colour in the text of a solve path.
pub open spec fn name_of(k: Cell) -> Seq<char> {
    if k == Cell::Black {
        "black"@
    } else if k == Cell::White {
        "white"@
    } else {
        "empty"@
    }
}

/// The text of a 2x2 step with colour `k` reads, after two spaces per level
/// of indentation, "2x2 forces r,c to " and the name of `k`, then whether it
/// avoids a solid block or a checkerboard, on one line.
pub proof fn lemma_2x2_text_names_colour(indent: nat, r: usize, c: usize, k: Cell)
    ensures
        step_text(indent, SolveStep::ApplySolid2x2(r, c, k)) == indent_text(indent) + "2x2 forces "@ + decimal(
            r as nat,
        ) + ","@ + decimal(c as nat) + " to "@ + name_of(k) + " (solid)\n"@,
        step_text(indent, SolveStep::ApplyCheckerboard2x2(r, c, k)) == indent_text(indent) + "2x2 forces "@
            + decimal(r as nat) + ","@ + decimal(c as nat) + " to "@ + name_of(k) + " (checkerboard)\n"@,
        indent_text(indent) == Seq::new(2 * indent, |i: int| ' '),
{
    assert(colour_name(k) == name_of(k));
    lemma_indent_spaces(indent);
}

/// The text of a proof-by-contradiction step with colour `k` reads "pbc at
/// r,c forces " and the name of `k`, then "; if " and the name of the other
/// colour, followed by the steps made under that hypothesis one level deeper;
/// the border and connectivity steps read "apply border logic" and "apply
/// connectivity logic".
pub proof fn lemma_step_text_names_colour(
    indent: nat,
    r: usize,
    c: usize,
    k: Cell,
    steps: Vec<SolveStep>,
    ch: Vec<(usize, usize, Cell)>,
)
    ensures
        step_text(indent, SolveStep::ApplyPbc(r, c, k, steps)) == indent_text(indent) + "pbc at "@ + decimal(
            r as nat,
        ) + ","@ + decimal(c as nat) + " forces "@ + name_of(k) + "; if "@ + name_of(
            if k == Cell::Black {
                Cell::White
            } else if k == Cell::White {
                Cell::Black
            } else {
                Cell::Empty
            },
        ) + ":\n"@ + steps_text(indent + 1, steps@, steps@.len() as int),
        step_text(indent, SolveStep::ApplyBorder(ch)) == indent_text(indent) + "apply border logic\n"@,
        step_text(indent, SolveStep::ApplyConnectivity(ch)) == indent_text(indent) + "apply connectivity logic\n"@,
{
    assert(colour_name(k) == name_of(k));
    assert(colour_name(opposite(k)) == name_of(opposite(k)));
}

/// `k` levels of indentation are `2k` spaces.
proof fn lemma_indent_spaces(k: nat)
    ensures
        indent_text(k) == Seq::new(2 * k, |i: int| ' '),
    decreases k,
{
    if k > 0 {
        lemma_indent_spaces((k - 1) as nat);
    }
    assert(indent_text(k) =~= Seq::new(2 * k, |i: int| ' '));
}

} // verus!
