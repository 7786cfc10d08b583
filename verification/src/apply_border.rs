use vstd::prelude::*;

use crate::array::in_bounds;
use crate::cell::{opposite, Cell};
use crate::count::{count_eq, lemma_count_all, lemma_count_bound, lemma_count_update};
use crate::ext::{ArrayExt, CellExt};
use crate::iter::{border_len, border_pos};
use crate::fill::{fills_some, lemma_fill_cell, lists_fills, only_fills};
use crate::replay::{lemma_changes_replay, lemma_replay_one, lemma_replays_recorded, lemma_replays_same, replays};
use crate::solve_path::{record, recorded_one, SolvePath, SolveStep};
use crate::Grid;

verus! {

/// `k` taken round a cycle of length `n`, for `-n <= k < 2n`.
pub open spec fn cyc(n: int, k: int) -> int {
    if k >= n {
        k - n
    } else if k < 0 {
        k + n
    } else {
        k
    }
}

/// The entry `k` steps forwards from `t` round the cycle.
pub open spec fn fwd_at(s: Seq<Cell>, t: int, k: int) -> Cell {
    s[cyc(s.len() as int, t + k)]
}

/// The entry `k` steps backwards from `t` round the cycle.
pub open spec fn bwd_at(s: Seq<Cell>, t: int, k: int) -> Cell {
    s[cyc(s.len() as int, t - k)]
}

/// The distance, at least `d`, from `t` forwards round the cycle to the next
/// filled entry of `s` (`s.len()` when there is none).
pub open spec fn dist_fwd(s: Seq<Cell>, t: int, d: int) -> int
    decreases s.len() - d,
{
    if d >= s.len() {
        d
    } else if fwd_at(s, t, d) != Cell::Empty {
        d
    } else {
        dist_fwd(s, t, d + 1)
    }
}

/// The distance, at least `d`, from `t` backwards round the cycle to the
/// previous filled entry of `s` (`s.len()` when there is none).
pub open spec fn dist_bwd(s: Seq<Cell>, t: int, d: int) -> int
    decreases s.len() - d,
{
    if d >= s.len() {
        d
    } else if bwd_at(s, t, d) != Cell::Empty {
        d
    } else {
        dist_bwd(s, t, d + 1)
    }
}

/// The value of entry `t` of the cyclic border sequence `s` after the border
/// rule: a filled entry keeps its colour; an empty entry takes the colour of
/// the nearest filled entries on both sides when they agree (a colour can only
/// meet the border in one stretch), and stays empty otherwise.
pub open spec fn fill_between(s: Seq<Cell>, t: int) -> Cell {
    let n = s.len() as int;
    if s[t] != Cell::Empty {
        s[t]
    } else {
        let a = bwd_at(s, t, dist_bwd(s, t, 1));
        let b = fwd_at(s, t, dist_fwd(s, t, 1));
        if a == b {
            a
        } else {
            Cell::Empty
        }
    }
}

/// The number of filled entries.
pub open spec fn filled_count(s: Seq<Cell>) -> int {
    s.len() - count_eq(s, Cell::Empty)
}

/// The rule applies: at least three border cells are filled, and both colours
/// are among them.
pub open spec fn border_active(s: Seq<Cell>) -> bool {
    &&& filled_count(s) >= 3
    &&& s.contains(Cell::Black)
    &&& s.contains(Cell::White)
}

/// The rule fills in some entry.
pub open spec fn border_progress(s: Seq<Cell>) -> bool {
    &&& border_active(s)
    &&& exists|t: int| 0 <= t < s.len() && s[t] == Cell::Empty && #[trigger] fill_between(s, t) != Cell::Empty
}

/// The `t`-th position of the walk round the border.
pub open spec fn walk_pos(rows: int, cols: int, t: int) -> (int, int) {
    border_pos(rows, cols, t).unwrap()
}

/// The cell met at the `t`-th step of the walk round the border.
pub open spec fn walk_cell(g: Grid, t: int) -> Cell {
    let p = walk_pos(g.rows as int, g.cols as int, t);
    g.at(p.0, p.1)
}

/// The cells met by the walk round the border, in order.
pub open spec fn border_cells(g: Grid) -> Seq<Cell> {
    Seq::new(border_len(g.rows as int, g.cols as int) as nat, |t: int| walk_cell(g, t))
}

/// Every step of the walk round the border lands on a position of the grid.
pub proof fn lemma_border_pos(rows: int, cols: int, t: int)
    requires
        rows >= 1,
        cols >= 1,
        t >= 0,
    ensures
        border_pos(rows, cols, t) is Some <==> t < border_len(rows, cols),
        border_pos(rows, cols, t) matches Some(p) ==> in_bounds(rows, cols, p.0, p.1),
{
}

/// The distance forwards to the next filled entry lies in range, and the
/// entries passed on the way are empty.
pub proof fn lemma_dist_fwd(s: Seq<Cell>, t: int, d: int)
    requires
        0 <= t < s.len(),
        1 <= d,
    ensures
        d <= dist_fwd(s, t, d),
        d <= s.len() ==> dist_fwd(s, t, d) <= s.len(),
        dist_fwd(s, t, d) < s.len() ==> fwd_at(s, t, dist_fwd(s, t, d)) != Cell::Empty,
        forall|k: int| d <= k < dist_fwd(s, t, d) && k < s.len() ==> #[trigger] fwd_at(s, t, k) == Cell::Empty,
    decreases s.len() - d,
{
    if d < s.len() && fwd_at(s, t, d) == Cell::Empty {
        lemma_dist_fwd(s, t, d + 1);
    }
}

/// The distance backwards to the previous filled entry lies in range, and the
/// entries passed on the way are empty.
pub proof fn lemma_dist_bwd(s: Seq<Cell>, t: int, d: int)
    requires
        0 <= t < s.len(),
        1 <= d,
    ensures
        d <= dist_bwd(s, t, d),
        d <= s.len() ==> dist_bwd(s, t, d) <= s.len(),
        dist_bwd(s, t, d) < s.len() ==> bwd_at(s, t, dist_bwd(s, t, d)) != Cell::Empty,
        forall|k: int| d <= k < dist_bwd(s, t, d) && k < s.len() ==> #[trigger] bwd_at(s, t, k) == Cell::Empty,
    decreases s.len() - d,
{
    if d < s.len() && bwd_at(s, t, d) == Cell::Empty {
        lemma_dist_bwd(s, t, d + 1);
    }
}

/// The distance is the first filled entry.
pub proof fn lemma_dist_fwd_is(s: Seq<Cell>, t: int, e: int)
    requires
        0 <= t < s.len(),
        1 <= e < s.len(),
        fwd_at(s, t, e) != Cell::Empty,
        forall|k: int| 1 <= k < e ==> #[trigger] fwd_at(s, t, k) == Cell::Empty,
    ensures
        dist_fwd(s, t, 1) == e,
{
    lemma_dist_fwd(s, t, 1);
    let f = dist_fwd(s, t, 1);
    if f < e {
        assert(fwd_at(s, t, f) == Cell::Empty);
    } else if f > e {
        assert(fwd_at(s, t, e) == Cell::Empty);
    }
}

/// A filled entry `e` steps back, with only empty entries between, is the
/// previous filled entry.
pub proof fn lemma_dist_bwd_is(s: Seq<Cell>, t: int, e: int)
    requires
        0 <= t < s.len(),
        1 <= e < s.len(),
        bwd_at(s, t, e) != Cell::Empty,
        forall|k: int| 1 <= k < e ==> #[trigger] bwd_at(s, t, k) == Cell::Empty,
    ensures
        dist_bwd(s, t, 1) == e,
{
    lemma_dist_bwd(s, t, 1);
    let f = dist_bwd(s, t, 1);
    if f < e {
        assert(bwd_at(s, t, f) == Cell::Empty);
    } else if f > e {
        assert(bwd_at(s, t, e) == Cell::Empty);
    }
}

proof fn lemma_count_update_ge<T>(s: Seq<T>, i: int, v: T, x: T)
    requires
        0 <= i < s.len(),
    ensures
        count_eq(s.update(i, v), x) + 1 >= count_eq(s, x),
{
    if s[i] == x {
        if v == x {
            assert(s.update(i, v) =~= s);
        } else {
            lemma_count_update(s, i, v, x);
        }
    } else if v == x {
        let t = s.update(i, v);
        assert(t.update(i, s[i]) =~= s);
        lemma_count_update(t, i, s[i], x);
    } else {
        lemma_count_update_neither(s, i, v, x);
    }
}

proof fn lemma_count_update_neither<T>(s: Seq<T>, i: int, v: T, x: T)
    requires
        0 <= i < s.len(),
        s[i] != x,
        v != x,
    ensures
        count_eq(s.update(i, v), x) == count_eq(s, x),
    decreases s.len(),
{
    let t = s.update(i, v);
    if i == s.len() - 1 {
        assert(t.drop_last() =~= s.drop_last());
    } else {
        assert(t.drop_last() =~= s.drop_last().update(i, v));
        lemma_count_update_neither(s.drop_last(), i, v, x);
    }
}

/// With three filled entries, the next filled entry after a filled one is
/// never more than `n - 2` steps away.
pub proof fn lemma_next_filled_close(s: Seq<Cell>, i: int)
    requires
        0 <= i < s.len(),
        s[i] != Cell::Empty,
        filled_count(s) >= 3,
    ensures
        dist_fwd(s, i, 1) <= s.len() - 2,
{
    let n = s.len() as int;
    lemma_count_bound(s, Cell::Empty);
    lemma_dist_fwd(s, i, 1);
    let e = dist_fwd(s, i, 1);
    if e > n - 2 {
        let m = cyc(n, i - 1);
        let u = Seq::new(n as nat, |k: int| Cell::Empty);
        lemma_count_all(u, Cell::Empty);
        let t1 = u.update(i, s[i]);
        let t2 = t1.update(m, s[m]);
        lemma_count_update_ge(u, i, s[i], Cell::Empty);
        lemma_count_update_ge(t1, m, s[m], Cell::Empty);
        assert forall|k: int| 0 <= k < n implies t2[k] == s[k] by {
            if k != i && k != m {
                let d = cyc(n, k - i);
                assert(1 <= d < n - 1);
                assert(cyc(n, i + d) == k);
                assert(fwd_at(s, i, d) == Cell::Empty);
            }
        }
        assert(t2 =~= s);
    }
}

/// The border sequence after the rule has been applied to every entry.
pub open spec fn filled_border(s: Seq<Cell>) -> Seq<Cell> {
    Seq::new(s.len(), |t: int| fill_between(s, t))
}

/// One step round the cycle, then another, is the two steps at once.
proof fn lemma_cyc_shift(n: int, x: int, d: int)
    requires
        n > 0,
        -n <= x < 2 * n,
        -n <= cyc(n, x) + d < 2 * n,
        -n <= x + d < 2 * n,
    ensures
        cyc(n, cyc(n, x) + d) == cyc(n, x + d),
{
}

/// Within the stretch of empty entries round an empty entry `t` whose nearest
/// filled entries differ, every entry keeps empty under the rule.
proof fn lemma_stretch_stays_empty(s: Seq<Cell>, t: int, u: int, back: int, fwd: int, k: int)
    requires
        0 <= t < s.len(),
        s[t] == Cell::Empty,
        1 <= back,
        1 <= fwd,
        back + fwd <= s.len(),
        bwd_at(s, t, back) != Cell::Empty,
        fwd_at(s, t, fwd) != Cell::Empty,
        bwd_at(s, t, back) != fwd_at(s, t, fwd),
        forall|k: int| 1 <= k < back ==> #[trigger] bwd_at(s, t, k) == Cell::Empty,
        forall|k: int| 1 <= k < fwd ==> #[trigger] fwd_at(s, t, k) == Cell::Empty,
        0 <= k < fwd,
        u == cyc(s.len() as int, t + k),
    ensures
        s[u] == Cell::Empty,
        fill_between(s, u) == Cell::Empty,
{
    let n = s.len() as int;
    assert(s[u] == Cell::Empty) by {
        if k > 0 {
            assert(fwd_at(s, t, k) == Cell::Empty);
        }
    }
    // forwards from u: the filled entry at fwd - k
    assert forall|j: int| 1 <= j < fwd - k implies #[trigger] fwd_at(s, u, j) == Cell::Empty by {
        lemma_cyc_shift(n, t + k, j);
        assert(fwd_at(s, t, k + j) == Cell::Empty);
    }
    lemma_cyc_shift(n, t + k, fwd - k);
    lemma_dist_fwd_is(s, u, fwd - k);
    // backwards from u: the filled entry at k + back
    assert forall|j: int| 1 <= j < k + back implies #[trigger] bwd_at(s, u, j) == Cell::Empty by {
        lemma_cyc_shift(n, t + k, -j);
        if j < k {
            assert(fwd_at(s, t, k - j) == Cell::Empty);
        } else if j > k {
            assert(bwd_at(s, t, j - k) == Cell::Empty);
        }
    }
    lemma_cyc_shift(n, t + k, -(k + back));
    lemma_dist_bwd_is(s, u, k + back);
}

/// The same, for an entry `k` steps backwards from `t` within its stretch.
proof fn lemma_stretch_stays_empty_back(s: Seq<Cell>, t: int, u: int, back: int, fwd: int, k: int)
    requires
        0 <= t < s.len(),
        s[t] == Cell::Empty,
        1 <= back,
        1 <= fwd,
        back + fwd <= s.len(),
        bwd_at(s, t, back) != Cell::Empty,
        fwd_at(s, t, fwd) != Cell::Empty,
        bwd_at(s, t, back) != fwd_at(s, t, fwd),
        forall|j: int| 1 <= j < back ==> #[trigger] bwd_at(s, t, j) == Cell::Empty,
        forall|j: int| 1 <= j < fwd ==> #[trigger] fwd_at(s, t, j) == Cell::Empty,
        0 <= k < back,
        u == cyc(s.len() as int, t - k),
    ensures
        s[u] == Cell::Empty,
        fill_between(s, u) == Cell::Empty,
{
    let n = s.len() as int;
    assert(s[u] == Cell::Empty) by {
        if k > 0 {
            assert(bwd_at(s, t, k) == Cell::Empty);
        }
    }
    assert forall|j: int| 1 <= j < back - k implies #[trigger] bwd_at(s, u, j) == Cell::Empty by {
        lemma_cyc_shift(n, t - k, -j);
        assert(bwd_at(s, t, k + j) == Cell::Empty);
    }
    lemma_cyc_shift(n, t - k, -(back - k));
    lemma_dist_bwd_is(s, u, back - k);
    assert forall|j: int| 1 <= j < k + fwd implies #[trigger] fwd_at(s, u, j) == Cell::Empty by {
        lemma_cyc_shift(n, t - k, j);
        if j < k {
            assert(bwd_at(s, t, k - j) == Cell::Empty);
        } else if j > k {
            assert(fwd_at(s, t, j - k) == Cell::Empty);
        }
    }
    lemma_cyc_shift(n, t - k, k + fwd);
    lemma_dist_fwd_is(s, u, k + fwd);
}

/// The nearest filled entries round an empty entry lie within the cycle,
/// backwards and forwards, without overlapping.
proof fn lemma_nearest_filled(s: Seq<Cell>, t: int)
    requires
        filled_count(s) >= 1,
        0 <= t < s.len(),
        s[t] == Cell::Empty,
    ensures
        1 <= dist_bwd(s, t, 1) < s.len(),
        1 <= dist_fwd(s, t, 1) < s.len(),
        dist_bwd(s, t, 1) + dist_fwd(s, t, 1) <= s.len(),
        bwd_at(s, t, dist_bwd(s, t, 1)) != Cell::Empty,
        fwd_at(s, t, dist_fwd(s, t, 1)) != Cell::Empty,
        forall|k: int| 1 <= k < dist_bwd(s, t, 1) ==> #[trigger] bwd_at(s, t, k) == Cell::Empty,
        forall|k: int| 1 <= k < dist_fwd(s, t, 1) ==> #[trigger] fwd_at(s, t, k) == Cell::Empty,
{
    let n = s.len() as int;
    lemma_first_filled(s);
    let p = first_filled(s);
    lemma_dist_fwd(s, t, 1);
    lemma_dist_bwd(s, t, 1);
    let ef = cyc(n, p - t);
    assert(fwd_at(s, t, ef) == s[p]);
    let df = dist_fwd(s, t, 1);
    if df > ef {
        assert(fwd_at(s, t, ef) == Cell::Empty);
    }
    let eb = cyc(n, t - p);
    assert(bwd_at(s, t, eb) == s[p]);
    let db = dist_bwd(s, t, 1);
    if db > eb {
        assert(bwd_at(s, t, eb) == Cell::Empty);
    }
    // the forward filled entry, seen backwards
    assert(bwd_at(s, t, n - df) == fwd_at(s, t, df));
    if db > n - df {
        assert(bwd_at(s, t, n - df) == Cell::Empty);
    }
}

/// The border rule fills at once all it can: on the sequence it leaves, it
/// leaves every entry as it is, so applying it again fills nothing.
pub proof fn lemma_border_idempotent(s: Seq<Cell>)
    requires
        filled_count(s) >= 1,
    ensures
        forall|t: int| 0 <= t < s.len() ==> #[trigger] fill_between(filled_border(s), t) == filled_border(s)[t],
        !border_progress(filled_border(s)),
{
    let f = filled_border(s);
    let n = s.len() as int;
    assert forall|t: int| 0 <= t < s.len() implies #[trigger] fill_between(f, t) == f[t] by {
        if s[t] == Cell::Empty && fill_between(s, t) == Cell::Empty {
            lemma_nearest_filled(s, t);
            let db = dist_bwd(s, t, 1);
            let df = dist_fwd(s, t, 1);
            assert forall|k: int| 1 <= k < df implies #[trigger] fwd_at(f, t, k) == Cell::Empty by {
                lemma_stretch_stays_empty(s, t, cyc(n, t + k), db, df, k);
            }
            assert forall|k: int| 1 <= k < db implies #[trigger] bwd_at(f, t, k) == Cell::Empty by {
                lemma_stretch_stays_empty_back(s, t, cyc(n, t - k), db, df, k);
            }
            lemma_dist_fwd_is(f, t, df);
            lemma_dist_bwd_is(f, t, db);
        }
    }
}

/// The first filled entry of `s`.
pub open spec fn first_filled(s: Seq<Cell>) -> int {
    if s[0] != Cell::Empty {
        0
    } else {
        dist_fwd(s, 0, 1)
    }
}

spec fn processed(n: int, f: int, i: int, t: int) -> bool {
    (f <= t && t < i) || t + n < i
}

proof fn lemma_first_filled(s: Seq<Cell>)
    requires
        filled_count(s) >= 1,
    ensures
        0 <= first_filled(s) < s.len(),
        s[first_filled(s)] != Cell::Empty,
        forall|t: int| 0 <= t < first_filled(s) ==> s[t] == Cell::Empty,
{
    let n = s.len() as int;
    if s[0] == Cell::Empty {
        lemma_dist_fwd(s, 0, 1);
        let f = dist_fwd(s, 0, 1);
        assert forall|t: int| 0 <= t < f && t < n implies s[t] == Cell::Empty by {
            if t > 0 {
                assert(fwd_at(s, 0, t) == Cell::Empty);
            }
        }
        if f >= n {
            lemma_count_all(s, Cell::Empty);
        }
    }
}

/// Entries strictly between a filled entry `i` and the next filled entry
/// `i + e` (round the cycle) take the colour of both ends when they agree.
proof fn lemma_between(s: Seq<Cell>, i: int, e: int, k: int)
    requires
        0 <= i < s.len(),
        s[i] != Cell::Empty,
        2 <= e < s.len(),
        dist_fwd(s, i, 1) == e,
        i < k < i + e,
    ensures
        s[cyc(s.len() as int, k)] == Cell::Empty,
        fill_between(s, cyc(s.len() as int, k)) == if s[i] == fwd_at(s, i, e) {
            s[i]
        } else {
            Cell::Empty
        },
{
    let n = s.len() as int;
    let t = cyc(n, k);
    lemma_dist_fwd(s, i, 1);
    assert(fwd_at(s, i, k - i) == Cell::Empty);
    assert(s[t] == Cell::Empty);
    // backwards from t, the first filled entry is i
    assert(bwd_at(s, t, k - i) == s[i]);
    assert forall|m: int| 1 <= m < k - i implies #[trigger] bwd_at(s, t, m) == Cell::Empty by {
        assert(bwd_at(s, t, m) == fwd_at(s, i, k - i - m));
    }
    lemma_dist_bwd_is(s, t, k - i);
    // forwards from t, the first filled entry is i + e
    assert(fwd_at(s, t, i + e - k) == fwd_at(s, i, e));
    assert forall|m: int| 1 <= m < i + e - k implies #[trigger] fwd_at(s, t, m) == Cell::Empty by {
        assert(fwd_at(s, t, m) == fwd_at(s, i, k - i + m));
    }
    lemma_dist_fwd_is(s, t, i + e - k);
}

proof fn lemma_mod_cyc(n: int, j: int)
    requires
        0 < n,
        0 <= j < 2 * n,
    ensures
        j % n == cyc(n, j),
{
    if j < n {
        vstd::arithmetic::div_mod::lemma_small_mod(j as nat, n as nat);
    } else {
        vstd::arithmetic::div_mod::lemma_mod_add_multiples_vanish(j - n, n);
        vstd::arithmetic::div_mod::lemma_small_mod((j - n) as nat, n as nat);
    }
}

/// Fills every empty stretch of the cyclic border sequence that has the same
/// colour at both ends with that colour. Returns whether any entry was filled.
#[verifier::rlimit(40)]
fn fill_border(border: &mut Vec<Cell>) -> (made_progress: bool)
    requires
        border_active(old(border)@),
        old(border)@.len() <= usize::MAX / 2,
    ensures
        final(border)@ == filled_border(old(border)@),
        made_progress == border_progress(old(border)@),
{
    let ghost s = border@;
    let n = border.len();
    let ghost f = first_filled(s);
    proof {
        lemma_first_filled(s);
    }
    let mut made_progress = false;
    let mut i: usize = 0;
    while i < n
        invariant
            s == old(border)@,
            border_active(s),
            n == s.len(),
            n <= usize::MAX / 2,
            border@.len() == n,
            f == first_filled(s),
            0 <= f < n,
            s[f] != Cell::Empty,
            forall|t: int| 0 <= t < f ==> s[t] == Cell::Empty,
            0 <= i <= n + f,
            i >= n ==> i == n + f,
            f <= i < n ==> s[i as int] != Cell::Empty,
            forall|t: int|
                0 <= t < n ==> #[trigger] border@[t] == if processed(n as int, f, i as int, t) {
                    fill_between(s, t)
                } else {
                    s[t]
                },
            made_progress <==> exists|t: int|
                0 <= t < n && processed(n as int, f, i as int, t) && s[t] == Cell::Empty
                    && #[trigger] fill_between(s, t) != Cell::Empty,
        decreases n + f - i,
    {
        if border[i].empty() {
            proof {
                assert(border@[i as int] == s[i as int]);
                assert forall|t: int|
                    0 <= t < n && processed(n as int, f, i + 1, t) implies processed(n as int, f, i as int, t) by {}
            }
            i = i + 1;
        } else {
            let ghost ii = i as int;
            proof {
                assert(border@[i as int] == s[i as int]);
                assert(ii >= f);
                lemma_next_filled_close(s, ii);
                lemma_dist_fwd(s, ii, 1);
            }
            let ghost e = dist_fwd(s, ii, 1);
            let mut j = i + 1;
            proof {
                lemma_mod_cyc(n as int, j as int);
            }
            while j < i + n - 1 && border[j % n].empty()
                invariant
                    s == old(border)@,
                    n == s.len(),
                    n <= usize::MAX / 2,
                    border@.len() == n,
                    0 <= f < n,
                    s[f] != Cell::Empty,
                    forall|t: int| 0 <= t < f ==> s[t] == Cell::Empty,
                    ii == i,
                    f <= i < n,
                    s[ii] != Cell::Empty,
                    1 <= e <= n - 2,
                    e == dist_fwd(s, ii, 1),
                    fwd_at(s, ii, e) != Cell::Empty,
                    forall|k: int| 1 <= k < e ==> #[trigger] fwd_at(s, ii, k) == Cell::Empty,
                    i + 1 <= j <= i + e,
                    forall|t: int|
                        0 <= t < n ==> #[trigger] border@[t] == if processed(n as int, f, i as int, t) {
                            fill_between(s, t)
                        } else {
                            s[t]
                        },
                    (j as int) % (n as int) == cyc(n as int, j as int),
                decreases i + e - j,
            {
                proof {
                    let t = cyc(n as int, j as int);
                    assert(border@[t] == s[t]) by {
                        if j < n {
                        } else {
                            if t > f {
                                assert(fwd_at(s, ii, n + f - ii) == s[f]);
                            }
                            assert(t <= f);
                        }
                    }
                    assert(fwd_at(s, ii, j - ii) == s[t]);
                }
                j = j + 1;
                proof {
                    lemma_mod_cyc(n as int, j as int);
                }
            }
            let ghost tj = cyc(n as int, j as int);
            proof {
                assert(border@[tj] == s[tj]) by {
                    if j >= n {
                        if tj > f {
                            assert(fwd_at(s, ii, n + f - ii) == s[f]);
                        }
                    }
                }
                assert(fwd_at(s, ii, j - ii) == s[tj]);
                assert(j == i + e);
            }
            let bi = border[i];
            if i + 2 <= j && border[j % n] == bi {
                let mut k = i + 1;
                while k < j
                    invariant
                        s == old(border)@,
                        n == s.len(),
                        n <= usize::MAX / 2,
                        border@.len() == n,
                        ii == i,
                        f <= i < n,
                        i + 2 <= j,
                        j == i + e,
                        2 <= e <= n - 2,
                        e == dist_fwd(s, ii, 1),
                        s[ii] != Cell::Empty,
                        bi == s[ii],
                        bi == fwd_at(s, ii, e),
                        0 <= f < n,
                        s[f] != Cell::Empty,
                        forall|kk: int| 1 <= kk < e ==> #[trigger] fwd_at(s, ii, kk) == Cell::Empty,
                        i + 1 <= k <= j,
                        forall|t: int|
                            0 <= t < n ==> #[trigger] border@[t] == if processed(n as int, f, i as int, t) {
                                fill_between(s, t)
                            } else if exists|kk: int| i < kk < k && cyc(n as int, kk) == t {
                                bi
                            } else {
                                s[t]
                            },
                    decreases j - k,
                {
                    proof {
                        lemma_mod_cyc(n as int, k as int);
                    }
                    border.set(k % n, bi);
                    proof {
                        let tk = cyc(n as int, k as int);
                        assert forall|t: int|
                            0 <= t < n implies #[trigger] border@[t] == if processed(n as int, f, i as int, t) {
                                fill_between(s, t)
                            } else if exists|kk: int| i < kk < k + 1 && cyc(n as int, kk) == t {
                                bi
                            } else {
                                s[t]
                            } by {
                            if t == tk {
                                assert(!processed(n as int, f, i as int, t)) by {
                                    lemma_between(s, ii, e, k as int);
                                    if t >= f && t < i {
                                        assert(k >= n);
                                        assert(fwd_at(s, ii, n + f - ii) == s[f]);
                                    }
                                }
                                assert(i < k < k + 1 && cyc(n as int, k as int) == t);
                            } else {
                                if exists|kk: int| i < kk < k + 1 && cyc(n as int, kk) == t {
                                    let kk = choose|kk: int| i < kk < k + 1 && cyc(n as int, kk) == t;
                                    assert(kk != k);
                                    assert(i < kk < k && cyc(n as int, kk) == t);
                                }
                            }
                        }
                    }
                    k = k + 1;
                }
                made_progress = true;
            }
            proof {
                let filled_now = i + 2 <= j && fwd_at(s, ii, e) == s[ii];
                assert forall|t: int|
                    0 <= t < n implies #[trigger] border@[t] == if processed(n as int, f, j as int, t) {
                        fill_between(s, t)
                    } else {
                        s[t]
                    } by {
                    if processed(n as int, f, i as int, t) {
                        if filled_now {
                            if exists|kk: int| i < kk < j && cyc(n as int, kk) == t {
                                let kk = choose|kk: int| i < kk < j && cyc(n as int, kk) == t;
                                lemma_between(s, ii, e, kk);
                                if t >= f && t < i {
                                    assert(kk >= n);
                                    assert(fwd_at(s, ii, n + f - ii) == s[f]);
                                }
                            }
                        }
                    } else if processed(n as int, f, j as int, t) {
                        if t == ii {
                        } else {
                            let kk = if t > ii { t } else { t + n };
                            assert(i < kk < j);
                            assert(cyc(n as int, kk) == t);
                            lemma_between(s, ii, e, kk);
                        }
                    } else {
                        if filled_now {
                            if exists|kk: int| i < kk < j && cyc(n as int, kk) == t {
                                let kk = choose|kk: int| i < kk < j && cyc(n as int, kk) == t;
                                assert(false);
                            }
                        }
                    }
                }
                if j >= n {
                    if tj > f {
                        assert(fwd_at(s, ii, n + f - ii) == s[f]);
                    }
                    if tj < f {
                        assert(s[tj] == Cell::Empty);
                    }
                }
                if filled_now {
                    lemma_between(s, ii, e, ii + 1);
                    let t = cyc(n as int, ii + 1);
                    assert(processed(n as int, f, j as int, t));
                    assert(s[t] == Cell::Empty && fill_between(s, t) != Cell::Empty);
                }
                if exists|t: int|
                    0 <= t < n && processed(n as int, f, j as int, t) && s[t] == Cell::Empty
                        && #[trigger] fill_between(s, t) != Cell::Empty {
                    let t = choose|t: int|
                        0 <= t < n && processed(n as int, f, j as int, t) && s[t] == Cell::Empty
                            && #[trigger] fill_between(s, t) != Cell::Empty;
                    if !processed(n as int, f, i as int, t) {
                        let kk = if t > ii { t } else { t + n };
                        lemma_between(s, ii, e, kk);
                        assert(filled_now);
                    }
                }
            }
            i = j;
        }
    }
    proof {
        assert(border@ =~= filled_border(s)) by {
            assert forall|t: int| 0 <= t < n implies processed(n as int, f, i as int, t) by {}
        }
        if made_progress {
            let t = choose|t: int|
                0 <= t < n && processed(n as int, f, i as int, t) && s[t] == Cell::Empty
                    && #[trigger] fill_between(s, t) != Cell::Empty;
        }
        if border_progress(s) {
            let t = choose|t: int| 0 <= t < s.len() && s[t] == Cell::Empty && #[trigger] fill_between(s, t) != Cell::Empty;
            assert(processed(n as int, f, i as int, t));
        }
    }
    made_progress
}

/// Position `p` lies on the walk round the border (a single cell has no walk).
pub open spec fn on_walk(rows: int, cols: int, p: (int, int)) -> bool {
    &&& in_bounds(rows, cols, p.0, p.1)
    &&& p.0 == 0 || p.0 == rows - 1 || p.1 == 0 || p.1 == cols - 1
    &&& !(rows == 1 && cols == 1)
}

/// The first step of the walk round the border that reaches `p`.
pub open spec fn border_index(rows: int, cols: int, p: (int, int)) -> int {
    let nr = rows - 1;
    let nc = cols - 1;
    if p.0 == 0 && p.1 < nc {
        p.1
    } else if p.1 == nc && p.0 < nr {
        nc + p.0
    } else if p.0 == nr && p.1 > 0 {
        nc + nr + (nc - p.1)
    } else {
        2 * nc + nr + (nr - p.0)
    }
}

/// Each position on the border is reached by the walk, at its border index.
pub proof fn lemma_border_index(rows: int, cols: int, p: (int, int))
    requires
        rows >= 1,
        cols >= 1,
        on_walk(rows, cols, p),
    ensures
        0 <= border_index(rows, cols, p) < border_len(rows, cols),
        walk_pos(rows, cols, border_index(rows, cols, p)) == p,
{
}

/// The border index of the `t`-th position of the walk is `t`.
pub proof fn lemma_walk_index(rows: int, cols: int, t: int)
    requires
        rows >= 1,
        cols >= 1,
        0 <= t < border_len(rows, cols),
    ensures
        on_walk(rows, cols, walk_pos(rows, cols, t)),
        border_index(rows, cols, walk_pos(rows, cols, t)) == t || ((rows == 1 || cols == 1)
            && border_index(rows, cols, walk_pos(rows, cols, t)) == border_len(rows, cols) - t
            && border_len(rows, cols) - t < t),
{
}

/// A walk round a grid one cell wide goes out along the cells and back:
/// steps `t` and `n - t` meet the same cell.
pub proof fn lemma_thin_walk(rows: int, cols: int, t: int)
    requires
        rows >= 1,
        cols >= 1,
        rows == 1 || cols == 1,
        0 < t < border_len(rows, cols),
    ensures
        walk_pos(rows, cols, t) == walk_pos(rows, cols, border_len(rows, cols) - t),
{
}

/// The step that meets the same cell as step `t` on the way back along a
/// grid one cell wide.
pub open spec fn mirror(n: int, t: int) -> int {
    if t == 0 {
        0
    } else {
        n - t
    }
}

/// Steps that meet the same cell on a walk of length `s.len()` along a grid
/// one cell wide have the same entry.
pub open spec fn mirrored(s: Seq<Cell>) -> bool {
    forall|t: int| 0 <= t < s.len() ==> #[trigger] s[mirror(s.len() as int, t)] == s[t]
}

proof fn lemma_mirror_dist(s: Seq<Cell>, t: int, d: int)
    requires
        mirrored(s),
        0 <= t < s.len(),
        1 <= d,
    ensures
        dist_fwd(s, mirror(s.len() as int, t), d) == dist_bwd(s, t, d),
        dist_bwd(s, mirror(s.len() as int, t), d) == dist_fwd(s, t, d),
    decreases s.len() - d,
{
    let n = s.len() as int;
    let m = mirror(n, t);
    if d < n {
        let x = cyc(n, t - d);
        let y = cyc(n, t + d);
        assert(s[mirror(n, x)] == s[x]);
        assert(s[mirror(n, y)] == s[y]);
        assert(fwd_at(s, m, d) == bwd_at(s, t, d));
        assert(bwd_at(s, m, d) == fwd_at(s, t, d));
        lemma_mirror_dist(s, t, d + 1);
    }
}

/// On a mirrored sequence, the border rule gives mirrored entries the same value.
proof fn lemma_mirror_fill(s: Seq<Cell>, t: int)
    requires
        mirrored(s),
        0 <= t < s.len(),
    ensures
        fill_between(s, mirror(s.len() as int, t)) == fill_between(s, t),
{
    let n = s.len() as int;
    let m = mirror(n, t);
    assert(s[m] == s[t]);
    lemma_mirror_dist(s, t, 1);
    lemma_dist_fwd(s, t, 1);
    lemma_dist_bwd(s, t, 1);
    let df = dist_fwd(s, t, 1);
    let db = dist_bwd(s, t, 1);
    if df < n {
        let y = cyc(n, t + df);
        assert(s[mirror(n, y)] == s[y]);
        assert(bwd_at(s, m, df) == fwd_at(s, t, df));
    } else {
        assert(bwd_at(s, m, df) == fwd_at(s, t, df));
    }
    if db < n {
        let x = cyc(n, t - db);
        assert(s[mirror(n, x)] == s[x]);
        assert(fwd_at(s, m, db) == bwd_at(s, t, db));
    } else {
        assert(fwd_at(s, m, db) == bwd_at(s, t, db));
    }
}

/// Every step of the walk meets a cell whose value after the rule agrees with
/// the value at the first step meeting that cell.
pub proof fn lemma_border_consistent(g: Grid, t: int)
    requires
        g.rows >= 1,
        g.cols >= 1,
        0 <= t < border_len(g.rows as int, g.cols as int),
    ensures
        ({
            let s = border_cells(g);
            let bi = border_index(g.rows as int, g.cols as int, walk_pos(g.rows as int, g.cols as int, t));
            &&& 0 <= bi <= t
            &&& fill_between(s, bi) == fill_between(s, t)
            &&& s[bi] == s[t]
        }),
{
    let rows = g.rows as int;
    let cols = g.cols as int;
    let s = border_cells(g);
    let n = s.len() as int;
    lemma_walk_index(rows, cols, t);
    let bi = border_index(rows, cols, walk_pos(rows, cols, t));
    if bi != t {
        assert(rows == 1 || cols == 1);
        assert forall|u: int| 0 <= u < n implies #[trigger] s[mirror(n, u)] == s[u] by {
            if u > 0 {
                lemma_thin_walk(rows, cols, u);
            }
        }
        lemma_mirror_fill(s, t);
        lemma_thin_walk(rows, cols, t);
    }
}

/// The cell (r, c) after the border rule: when the rule fills in anything,
/// each cell on the walk takes the value the rule gives its entry; otherwise,
/// and off the walk, the grid is unchanged.
pub open spec fn after_border(g: Grid, r: int, c: int) -> Cell {
    let s = border_cells(g);
    if border_progress(s) && on_walk(g.rows as int, g.cols as int, (r, c)) {
        fill_between(s, border_index(g.rows as int, g.cols as int, (r, c)))
    } else {
        g.at(r, c)
    }
}

/// A border step that lists the cells filled from `old` to `new`.
pub open spec fn border_step(step: SolveStep, old: Grid, new: Grid) -> bool {
    step matches SolveStep::ApplyBorder(ch) && lists_fills(old, new, ch@) && ch@ == border_changes(
        old,
        filled_border(border_cells(old)),
        border_len(old.rows as int, old.cols as int),
    )
}

/// The changes listed for the first `t` steps of the walk round `g` when its
/// border cells become `nb`: each cell met for the first time whose value
/// changes, with its new value, in the order of the walk.
pub open spec fn border_changes(g: Grid, nb: Seq<Cell>, t: int) -> Seq<(usize, usize, Cell)>
    decreases t,
{
    if t <= 0 {
        Seq::empty()
    } else {
        let prev = border_changes(g, nb, t - 1);
        let p = walk_pos(g.rows as int, g.cols as int, t - 1);
        if border_index(g.rows as int, g.cols as int, p) == t - 1 && g.at(p.0, p.1) != nb[t - 1] {
            prev.push((p.0 as usize, p.1 as usize, nb[t - 1]))
        } else {
            prev
        }
    }
}

fn collect_border(grid: &Grid) -> (border: Vec<Cell>)
    requires
        grid.wf(),
        grid.rows >= 1,
        grid.cols >= 1,
    ensures
        border@ == border_cells(*grid),
{
    let ghost n = border_len(grid.rows as int, grid.cols as int);
    let mut it = grid.iter_border_positions();
    let mut border: Vec<Cell> = Vec::new();
    loop
        invariant_except_break
            it@ == (grid.rows as int, grid.cols as int, border@.len() as int),
        invariant
            grid.wf(),
            grid.rows >= 1,
            grid.cols >= 1,
            n == border_len(grid.rows as int, grid.cols as int),
            border@.len() <= n,
            forall|t: int| 0 <= t < border@.len() ==> #[trigger] border@[t] == walk_cell(*grid, t),
        ensures
            border@.len() == n,
        decreases n - border@.len(),
    {
        proof {
            lemma_border_pos(grid.rows as int, grid.cols as int, border@.len() as int);
        }
        match it.next() {
            Some(x) => {
                border.push(grid.get(x.0, x.1));
            },
            None => {
                break;
            },
        }
    }
    assert(border@ =~= border_cells(*grid));
    border
}

fn count_border(border: &Vec<Cell>) -> (res: (usize, bool, bool))
    ensures
        res.0 == filled_count(border@),
        res.1 == border@.contains(Cell::Black),
        res.2 == border@.contains(Cell::White),
{
    let ghost s = border@;
    let n = border.len();
    let mut cnt: usize = 0;
    let mut has_black = false;
    let mut has_white = false;
    let mut k: usize = 0;
    while k < n
        invariant
            border@ == s,
            n == s.len(),
            k <= n,
            cnt == k - count_eq(s.take(k as int), Cell::Empty),
            has_black <==> s.take(k as int).contains(Cell::Black),
            has_white <==> s.take(k as int).contains(Cell::White),
        decreases n - k,
    {
        proof {
            assert(s.take(k + 1).drop_last() =~= s.take(k as int));
            lemma_count_bound(s.take(k as int), Cell::Empty);
            assert(s.take(k + 1).last() == s[k as int]);
            let tk1 = s.take(k + 1);
            let tk = s.take(k as int);
            assert forall|x: Cell| tk1.contains(x) <==> (tk.contains(x) || s[k as int] == x) by {
                if tk1.contains(x) {
                    let j = choose|j: int| 0 <= j < tk1.len() && tk1[j] == x;
                    if j < k {
                        assert(tk[j] == x);
                    }
                }
                if tk.contains(x) {
                    let j = choose|j: int| 0 <= j < tk.len() && tk[j] == x;
                    assert(tk1[j] == x);
                }
                if s[k as int] == x {
                    assert(tk1[k as int] == x);
                }
            }
        }
        match border[k] {
            Cell::Black => {
                cnt = cnt + 1;
                has_black = true;
            },
            Cell::White => {
                cnt = cnt + 1;
                has_white = true;
            },
            Cell::Empty => {},
        }
        k = k + 1;
    }
    proof {
        assert(s.take(n as int) =~= s);
    }
    (cnt, has_black, has_white)
}

/// Writes the filled border sequence back round the border, listing the cells
/// that change.
#[verifier::rlimit(40)]
fn write_border(grid: &mut Grid, border: &Vec<Cell>) -> (changed: Vec<(usize, usize, Cell)>)
    requires
        old(grid).wf(),
        old(grid).rows >= 1,
        old(grid).cols >= 1,
        border@ == filled_border(border_cells(*old(grid))),
    ensures
        final(grid).wf(),
        final(grid).rows == old(grid).rows,
        final(grid).cols == old(grid).cols,
        forall|r: int, c: int|
            #![trigger final(grid).at(r, c)]
            old(grid).contains_pos(r, c) ==> final(grid).at(r, c) == if on_walk(
                old(grid).rows as int,
                old(grid).cols as int,
                (r, c),
            ) {
                border@[border_index(old(grid).rows as int, old(grid).cols as int, (r, c))]
            } else {
                old(grid).at(r, c)
            },
        only_fills(*old(grid), *final(grid)),
        lists_fills(*old(grid), *final(grid), changed@),
        changed@ == border_changes(*old(grid), border@, border@.len() as int),
{
    let ghost g = *grid;
    let ghost s = border_cells(g);
    let ghost rows = g.rows as int;
    let ghost cols = g.cols as int;
    let ghost nb = border@;
    let n = border.len();
    let mut changed: Vec<(usize, usize, Cell)> = Vec::new();
    let mut it = grid.iter_border_positions();
    let mut i: usize = 0;
    proof {
        assert(lists_fills(g, *grid, changed@));
    }
    loop
        invariant_except_break
            it@ == (rows, cols, i as int),
        invariant
            g == *old(grid),
            grid.wf(),
            grid.rows == g.rows,
            grid.cols == g.cols,
            rows == g.rows,
            cols == g.cols,
            rows >= 1,
            cols >= 1,
            g.wf(),
            s == border_cells(g),
            border@ == nb,
            nb == filled_border(s),
            n == s.len(),
            i <= n,
            forall|r: int, c: int|
                #![trigger grid.at(r, c)]
                g.contains_pos(r, c) ==> grid.at(r, c) == if on_walk(rows, cols, (r, c))
                    && border_index(rows, cols, (r, c)) < i {
                    nb[border_index(rows, cols, (r, c))]
                } else {
                    g.at(r, c)
                },
            only_fills(g, *grid),
            lists_fills(g, *grid, changed@),
            changed@ == border_changes(g, nb, i as int),
        ensures
            i == n,
        decreases n - i,
    {
        proof {
            lemma_border_pos(rows, cols, i as int);
        }
        match it.next() {
            Some(x) => {
                let ghost p = (x.0 as int, x.1 as int);
                proof {
                    lemma_border_consistent(g, i as int);
                    lemma_walk_index(rows, cols, i as int);
                }
                let bv = border[i];
                if grid.get(x.0, x.1) != bv {
                    let ghost gb = *grid;
                    let ghost ch0 = changed@;
                    proof {
                        assert(border_index(rows, cols, p) == i);
                        assert(s[i as int] == Cell::Empty);
                    }
                    changed.push((x.0, x.1, bv));
                    grid.set(x.0, x.1, bv);
                    proof {
                        assert(changed@.drop_last() =~= ch0);
                        lemma_fill_cell(g, gb, *grid, changed@, p);
                        assert(changed@ == border_changes(g, nb, i + 1));
                    }
                } else {
                    proof {
                        if border_index(rows, cols, p) == i {
                            assert(g.at(p.0, p.1) == grid.at(p.0, p.1));
                        }
                        assert(changed@ == border_changes(g, nb, i + 1));
                    }
                }
                i = i + 1;
            },
            None => {
                break;
            },
        }
    }
    changed
}

/// Applies the border rule: walking round the border, each stretch of empty
/// cells between two cells of the same colour is filled with that colour. The
/// rule is applied only where at least three border cells are filled and both
/// colours occur among them. Returns whether any cell was filled.
pub fn apply(grid: &mut Grid, path: &mut Option<SolvePath>) -> (res: bool)
    requires
        old(grid).wf(),
        old(grid).rows >= 1,
        old(grid).cols >= 1,
    ensures
        final(grid).wf(),
        final(grid).rows == old(grid).rows,
        final(grid).cols == old(grid).cols,
        forall|r: int, c: int|
            #![trigger final(grid).at(r, c)]
            old(grid).contains_pos(r, c) ==> final(grid).at(r, c) == after_border(*old(grid), r, c),
        res == border_progress(border_cells(*old(grid))),
        only_fills(*old(grid), *final(grid)),
        res == fills_some(*old(grid), *final(grid)),
        res ==> recorded_one(
            *old(path),
            *final(path),
            |st: SolveStep| border_step(st, *old(grid), *final(grid)),
        ),
        !res ==> *final(path) == *old(path),
        !res ==> *final(grid) == *old(grid),
        replays(*old(path), *final(path), *old(grid), *final(grid)),
{
    let ghost g = *grid;
    let ghost s = border_cells(g);
    proof {
        lemma_replays_same(*path, g);
    }
    let ghost rows = g.rows as int;
    let ghost cols = g.cols as int;
    let mut border = collect_border(grid);
    let (cnt, has_black, has_white) = count_border(&border);
    if cnt < 3 {
        return false;
    }
    if !has_black || !has_white {
        return false;
    }
    proof {
        assert(crate::array::size_ok(rows, cols));
        assert(s.len() == border_len(rows, cols));
        assert(rows + cols <= 2 * (usize::MAX / 8));
        assert(2 * (2 * (usize::MAX / 8)) <= usize::MAX / 2) by (nonlinear_arith)
            requires
                usize::MAX >= 0,
        ;
    }
    let made_progress = fill_border(&mut border);
    if made_progress {
        let changed = write_border(grid, &border);
        let ghost p0 = *path;
        let step = SolveStep::ApplyBorder(changed);
        proof {
            assert(border_step(step, g, *grid));
            lemma_changes_replay(g, *grid, changed@);
            lemma_replay_one(g.cols as int, g.data@, step);
        }
        record(path, step);
        proof {
            lemma_replays_recorded(p0, *path, g, *grid, seq![step]);
            if let Some(v) = p0 {
                assert(path->0@ =~= v@ + seq![step]);
                assert(path->0@.drop_last() =~= v@);
            }
            let t = choose|t: int| 0 <= t < s.len() && s[t] == Cell::Empty && #[trigger] fill_between(s, t) != Cell::Empty;
            lemma_border_consistent(g, t);
            lemma_walk_index(rows, cols, t);
            let p = walk_pos(rows, cols, t);
            lemma_border_pos(rows, cols, t);
            assert(grid.at(p.0, p.1) != Cell::Empty);
        }
    }
    made_progress
}

/// Three distinct filled entries make at least three filled entries.
proof fn lemma_three_filled(s: Seq<Cell>, a: int, b: int, c: int)
    requires
        0 <= a < s.len(),
        0 <= b < s.len(),
        0 <= c < s.len(),
        a != b,
        a != c,
        b != c,
        s[a] != Cell::Empty,
        s[b] != Cell::Empty,
        s[c] != Cell::Empty,
    ensures
        count_eq(s, Cell::Empty) + 3 <= s.len(),
{
    let s1 = s.update(a, Cell::Empty);
    let s2 = s1.update(b, Cell::Empty);
    let s3 = s2.update(c, Cell::Empty);
    assert(s1.update(a, s[a]) =~= s);
    lemma_count_update(s1, a, s[a], Cell::Empty);
    assert(s2.update(b, s[b]) =~= s1);
    lemma_count_update(s2, b, s[b], Cell::Empty);
    assert(s3.update(c, s[c]) =~= s2);
    lemma_count_update(s3, c, s[c], Cell::Empty);
    lemma_count_bound(s3, Cell::Empty);
}

/// Completeness of the border rule: when two border cells of one colour have
/// only empty cells between them (going round the border one way), and a cell
/// of the other colour lies elsewhere on the border, the rule applies, whatever
/// the numbers of each colour, and fills every cell between them with that
/// colour.
pub proof fn lemma_border_fills_gap(s: Seq<Cell>, i: int, len: int, m: int)
    requires
        0 <= i < s.len(),
        2 <= len < s.len(),
        s[i] != Cell::Empty,
        s[(i + len) % (s.len() as int)] == s[i],
        forall|d: int| 0 < d < len ==> #[trigger] s[(i + d) % (s.len() as int)] == Cell::Empty,
        0 <= m < s.len(),
        s[m] == opposite(s[i]),
    ensures
        border_progress(s),
        forall|d: int| 0 < d < len ==> #[trigger] fill_between(s, (i + d) % (s.len() as int)) == s[i],
{
    let n = s.len() as int;
    let j = (i + len) % n;
    lemma_mod_cyc(n, i + len);
    assert forall|d: int| 0 < d < len implies #[trigger] fill_between(s, (i + d) % n) == s[i] by {
        lemma_mod_cyc(n, i + d);
        let t = (i + d) % n;
        assert(s[t] == Cell::Empty);
        assert forall|k: int| 1 <= k < d implies #[trigger] bwd_at(s, t, k) == Cell::Empty by {
            lemma_mod_cyc(n, i + d - k);
            assert(s[(i + (d - k)) % n] == Cell::Empty);
        }
        lemma_mod_cyc(n, i);
        assert(bwd_at(s, t, d) == s[i]);
        lemma_dist_bwd_is(s, t, d);
        assert forall|k: int| 1 <= k < len - d implies #[trigger] fwd_at(s, t, k) == Cell::Empty by {
            lemma_mod_cyc(n, i + d + k);
            assert(s[(i + (d + k)) % n] == Cell::Empty);
        }
        assert(fwd_at(s, t, len - d) == s[j]);
        lemma_dist_fwd_is(s, t, len - d);
    }
    assert(s[m] != s[i]);
    assert(m != j);
    assert(i != j);
    lemma_three_filled(s, i, j, m);
    if s[i] == Cell::Black {
        assert(s[m] == Cell::White);
        assert(s.contains(Cell::Black) && s.contains(Cell::White)) by {
            assert(s[i] == Cell::Black);
            assert(s[m] == Cell::White);
        }
    } else {
        assert(s[i] == Cell::White && s[m] == Cell::Black);
        assert(s.contains(Cell::Black) && s.contains(Cell::White)) by {
            assert(s[m] == Cell::Black);
            assert(s[i] == Cell::White);
        }
    }
    lemma_mod_cyc(n, i + 1);
    let t1 = (i + 1) % n;
    assert(s[t1] == Cell::Empty);
    assert(fill_between(s, t1) == s[i]);
}

/// The same on a grid: the cells met on the walk round the border between
/// two cells of one colour, with only empty cells between them and a cell of
/// the other colour elsewhere on the border, take that colour.
pub proof fn lemma_border_fills_gap_grid(g: Grid, i: int, len: int, m: int, d: int)
    requires
        g.rows >= 1,
        g.cols >= 1,
        ({
            let s = border_cells(g);
            &&& 0 <= i < s.len()
            &&& 2 <= len < s.len()
            &&& s[i] != Cell::Empty
            &&& s[(i + len) % (s.len() as int)] == s[i]
            &&& forall|e: int| 0 < e < len ==> #[trigger] s[(i + e) % (s.len() as int)] == Cell::Empty
            &&& 0 <= m < s.len()
            &&& s[m] == opposite(s[i])
        }),
        0 < d < len,
    ensures
        ({
            let n = border_len(g.rows as int, g.cols as int);
            let p = walk_pos(g.rows as int, g.cols as int, (i + d) % n);
            after_border(g, p.0, p.1) == border_cells(g)[i]
        }),
{
    let s = border_cells(g);
    let n = s.len() as int;
    lemma_border_fills_gap(s, i, len, m);
    let t = (i + d) % n;
    assert(fill_between(s, t) == s[i]);
    lemma_mod_cyc(n, i + d);
    lemma_border_consistent(g, t);
    lemma_walk_index(g.rows as int, g.cols as int, t);
}

/// Soundness of the border rule's trigger: it applies only where at least
/// three border cells are filled and both colours occur among them.
pub proof fn lemma_border_active_sound(s: Seq<Cell>)
    requires
        border_progress(s),
    ensures
        s.len() - count_eq(s, Cell::Empty) >= 3,
        exists|a: int| 0 <= a < s.len() && s[a] == Cell::Black,
        exists|b: int| 0 <= b < s.len() && s[b] == Cell::White,
{
    assert(s.contains(Cell::Black));
    assert(s.contains(Cell::White));
}

/// Soundness of the border rule's fills: an empty border cell is filled only
/// between two cells of the colour it takes, with only empty cells between
/// them going round the border both ways from it.
pub proof fn lemma_border_fill_sound(s: Seq<Cell>, t: int)
    requires
        0 <= t < s.len(),
        s[t] == Cell::Empty,
        fill_between(s, t) != Cell::Empty,
    ensures
        exists|a: int, b: int|
            #![trigger s[(t - a + s.len()) % (s.len() as int)], s[(t + b) % (s.len() as int)]]
            1 <= a < s.len() && 1 <= b < s.len() && s[(t - a + s.len()) % (s.len() as int)] == fill_between(s, t)
                && s[(t + b) % (s.len() as int)] == fill_between(s, t) && (forall|k: int|
                1 <= k < a ==> #[trigger] s[(t - k + s.len()) % (s.len() as int)] == Cell::Empty) && (forall|
                k: int,
            |
                1 <= k < b ==> #[trigger] s[(t + k) % (s.len() as int)] == Cell::Empty),
{
    let n = s.len() as int;
    lemma_dist_bwd(s, t, 1);
    lemma_dist_fwd(s, t, 1);
    let a = dist_bwd(s, t, 1);
    let b = dist_fwd(s, t, 1);
    if a >= n {
        assert(bwd_at(s, t, a) == s[t]);
    }
    if b >= n {
        assert(fwd_at(s, t, b) == s[t]);
    }
    assert(a < n && b < n);
    lemma_mod_cyc(n, t - a + n);
    lemma_mod_cyc(n, t + b);
    assert forall|k: int| 1 <= k < a implies #[trigger] s[(t - k + n) % n] == Cell::Empty by {
        lemma_mod_cyc(n, t - k + n);
        assert(bwd_at(s, t, k) == Cell::Empty);
    }
    assert forall|k: int| 1 <= k < b implies #[trigger] s[(t + k) % n] == Cell::Empty by {
        lemma_mod_cyc(n, t + k);
        assert(fwd_at(s, t, k) == Cell::Empty);
    }
    assert(s[(t - a + n) % n] == fill_between(s, t));
    assert(s[(t + b) % n] == fill_between(s, t));
}

} // verus!
