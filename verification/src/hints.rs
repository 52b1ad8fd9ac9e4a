use crate::board::Board;
use crate::board::lemma_index_distinct;
use crate::board::lemma_put;
use crate::board::lemma_side_bound;
use crate::flags::ascending;
use crate::flags::lemma_ascending;
use crate::flags::lemma_ascending_len;
use crate::rules::dead_end;
use crate::rules::lemma_refuted_monotone;
use crate::rules::lemma_refuted_unfold;
use crate::rules::lemma_solution_step;
use crate::rules::lemma_unsolvable_deepens;
use crate::rules::refuted;
use crate::rules::refuted_is_sound;
use crate::rules::unsolvable;
use crate::search::empties;
use crate::search::lemma_empties;
use vstd::prelude::*;

verus! {

/// The digits available for cell `(x, y)` whose placement is refuted at no
/// level up to `level`; below level 0 these are all the available digits.
pub open spec fn remaining(g: Board, x: int, y: int, level: int) -> Set<int> {
    Set::new(
        |d: int|
            g.available(x, y).contains(d) && forall|k: nat|
                k <= level ==> !#[trigger] refuted(g.put(x, y, d), k),
    )
}

/// Cell `(x, y)` ranks no later than cell `(x2, y2)` at `level`: it has
/// fewer remaining digits; or as many, and fewer available digits; or as
/// many of both, and it comes no later in the row-by-row walk.
pub open spec fn ranks_first(g: Board, x: int, y: int, x2: int, y2: int, level: int) -> bool {
    let r1 = remaining(g, x, y, level).len();
    let r2 = remaining(g, x2, y2, level).len();
    let a1 = g.available(x, y).len();
    let a2 = g.available(x2, y2).len();
    r1 < r2 || (r1 == r2 && (a1 < a2 || (a1 == a2 && g.index(x, y) <= g.index(x2, y2))))
}

/// Cell `(x, y)` is the empty cell that ranks first at `level`.
pub open spec fn is_pick(g: Board, x: int, y: int, level: int) -> bool {
    &&& g.inside(x, y)
    &&& g.at(x, y) == 0
    &&& forall|x2: int, y2: int|
        g.inside(x2, y2) && #[trigger] g.at(x2, y2) == 0 ==> ranks_first(g, x, y, x2, y2, level)
}

/// What one level of deduction ends with.
pub enum Verdict {
    /// No hint can be given: no cell is empty, or some cell has no digit left.
    Quit,
    /// The digit is the only one left for the cell in this column and row.
    Forced(int, int, int),
    /// Every empty cell has two digits left or more.
    Open,
}

/// What deduction at `level` ends with on the grid.
pub open spec fn verdict(g: Board, level: int) -> Verdict {
    if g.full() {
        Verdict::Quit
    } else {
        let (x, y) = choose|x: int, y: int| is_pick(g, x, y, level);
        let left = remaining(g, x, y, level);
        if left.len() == 0 {
            Verdict::Quit
        } else if left.len() == 1 {
            Verdict::Forced(ascending(left, 32)[0], x, y)
        } else {
            Verdict::Open
        }
    }
}

/// The hint found at the first level from `level` up to `max_level` at which
/// deduction does not end open: a digit, the column and row of its cell, and
/// that level.
pub open spec fn hint_from(g: Board, level: int, max_level: int) -> Option<(int, (int, int), int)>
    decreases max_level - level,
{
    if level > max_level {
        None
    } else {
        match verdict(g, level) {
            Verdict::Quit => None,
            Verdict::Forced(d, x, y) => Some((d, (x, y), level)),
            Verdict::Open => if level < max_level {
                hint_from(g, level + 1, max_level)
            } else {
                None
            },
        }
    }
}

/// The hint that deduction up to `max_level` gives for the grid.
pub open spec fn hint_of(g: Board, max_level: int) -> Option<(int, (int, int), int)> {
    hint_from(g, 0, max_level)
}

/// At most one cell is the pick of a level.
pub proof fn lemma_pick_unique(g: Board, x: int, y: int, x2: int, y2: int, level: int)
    requires
        g.valid(),
        is_pick(g, x, y, level),
        is_pick(g, x2, y2, level),
    ensures
        x == x2 && y == y2,
{
    assert(ranks_first(g, x, y, x2, y2, level));
    assert(ranks_first(g, x2, y2, x, y, level));
    if x != x2 || y != y2 {
        lemma_index_distinct(g.side(), x, y, x2, y2);
    }
}

/// The digits that remain for a cell of a valid grid are digits of the
/// grid, as many as their ascending list is long.
pub proof fn lemma_remaining(g: Board, x: int, y: int, level: int)
    requires
        g.valid(),
        g.inside(x, y),
    ensures
        remaining(g, x, y, level).finite(),
        ascending(remaining(g, x, y, level), 32).len() == remaining(g, x, y, level).len(),
        level < 0 ==> remaining(g, x, y, level) == g.available(x, y),
        forall|d: int| remaining(g, x, y, level).contains(d) ==> 1 <= d <= g.side(),
{
    lemma_side_bound(g);
    lemma_ascending_len(remaining(g, x, y, level), 32);
    if level < 0 {
        assert(remaining(g, x, y, level) =~= g.available(x, y));
    }
}

/// The place, among the first `k` empty cells of the walk, of the one that
/// ranks first at `level`.
pub open spec fn leader(g: Board, level: int, k: int) -> int
    decreases k,
{
    if k <= 1 {
        0
    } else {
        let m = leader(g, level, k - 1);
        let p = empties(g)[m];
        let q = empties(g)[k - 1];
        if ranks_first(g, p.0, p.1, q.0, q.1, level) {
            m
        } else {
            k - 1
        }
    }
}

/// The leader of the first `k` empty cells is one of them and ranks no
/// later than any of them.
pub proof fn lemma_leader(g: Board, level: int, k: int)
    requires
        1 <= k <= empties(g).len(),
    ensures
        0 <= leader(g, level, k) < k,
        forall|j: int|
            0 <= j < k ==> ranks_first(
                g,
                empties(g)[leader(g, level, k)].0,
                empties(g)[leader(g, level, k)].1,
                (#[trigger] empties(g)[j]).0,
                empties(g)[j].1,
                level,
            ),
    decreases k,
{
    if k > 1 {
        lemma_leader(g, level, k - 1);
        let m = leader(g, level, k - 1);
        let p = empties(g)[m];
        let q = empties(g)[k - 1];
        let w = empties(g)[leader(g, level, k)];
        assert forall|j: int| 0 <= j < k implies ranks_first(
            g,
            w.0,
            w.1,
            (#[trigger] empties(g)[j]).0,
            empties(g)[j].1,
            level,
        ) by {
            if j < k - 1 {
                assert(ranks_first(g, p.0, p.1, empties(g)[j].0, empties(g)[j].1, level));
            }
        }
    }
}

/// A valid grid with an empty cell has a pick at every level.
pub proof fn lemma_pick_exists(g: Board, level: int) -> (r: (int, int))
    requires
        g.valid(),
        !g.full(),
    ensures
        is_pick(g, r.0, r.1, level),
{
    lemma_empties(g);
    let n = empties(g).len() as int;
    lemma_leader(g, level, n);
    let p = empties(g)[leader(g, level, n)];
    assert forall|x2: int, y2: int| g.inside(x2, y2) && #[trigger] g.at(x2, y2) == 0 implies ranks_first(
        g,
        p.0,
        p.1,
        x2,
        y2,
        level,
    ) by {
        let j = choose|j: int| 0 <= j < empties(g).len() && empties(g)[j] == (x2, y2);
        assert(ranks_first(g, p.0, p.1, empties(g)[j].0, empties(g)[j].1, level));
    }
    p
}

/// A hint found from `level` on is forced at its own level, and every
/// level from `level` up to that one ends open.
pub proof fn lemma_hint_from(
    g: Board,
    level: int,
    max_level: int,
    d: int,
    x: int,
    y: int,
    found: int,
)
    requires
        hint_from(g, level, max_level) == Some((d, (x, y), found)),
    ensures
        level <= found <= max_level,
        verdict(g, found) == Verdict::Forced(d, x, y),
        forall|k: int| level <= k < found ==> #[trigger] verdict(g, k) == Verdict::Open,
    decreases max_level - level,
{
    if level <= max_level {
        match verdict(g, level) {
            Verdict::Open => {
                lemma_hint_from(g, level + 1, max_level, d, x, y, found);
            },
            _ => {},
        }
    }
}

/// What a forced verdict says: the cell is the pick of the level, and the
/// digit is the only one that remains for it.
pub proof fn lemma_forced(g: Board, level: int, d: int, x: int, y: int)
    requires
        g.valid(),
        verdict(g, level) == Verdict::Forced(d, x, y),
    ensures
        is_pick(g, x, y, level),
        remaining(g, x, y, level).contains(d),
        forall|c: int| remaining(g, x, y, level).contains(c) ==> c == d,
{
    let p = lemma_pick_exists(g, level);
    let (cx, cy) = choose|x: int, y: int| is_pick(g, x, y, level);
    let left = remaining(g, x, y, level);
    lemma_remaining(g, x, y, level);
    lemma_ascending(left, 32);
    assert(left.contains(ascending(left, 32)[0]));
    assert forall|c: int| left.contains(c) implies c == d by {
        if c != d {
            assert(left.remove(d).contains(c));
            assert(left.remove(d).len() == 0);
        }
    }
}

/// A hint names an empty cell and a digit available for it that is refuted
/// at no level up to the hint's. Every other digit available for the cell is
/// refuted at the hint's level, and if the grid has a solution, it still has
/// one with the digit written into the cell.
pub proof fn hint_is_valid(g: Board, max_level: int, d: int, x: int, y: int, level: int)
    requires
        g.valid(),
        0 <= max_level,
        hint_of(g, max_level) == Some((d, (x, y), level)),
    ensures
        0 <= level <= max_level,
        g.inside(x, y),
        g.at(x, y) == 0,
        g.available(x, y).contains(d),
        forall|k: nat| k <= level ==> !#[trigger] refuted(g.put(x, y, d), k),
        forall|c: int|
            g.available(x, y).contains(c) && c != d ==> refuted(
                #[trigger] g.put(x, y, c),
                level as nat,
            ),
        g.solvable() ==> g.put(x, y, d).solvable(),
{
    lemma_hint_from(g, 0, max_level, d, x, y, level);
    lemma_forced(g, level, d, x, y);
    lemma_side_bound(g);
    assert forall|c: int| g.available(x, y).contains(c) && c != d implies refuted(
        #[trigger] g.put(x, y, c),
        level as nat,
    ) by {
        lemma_other_digit(g, max_level, d, x, y, level, c);
    }
    if g.solvable() {
        let s = choose|s: Board| #[trigger] s.solved() && s.completes(g);
        lemma_solution_step(g, s, x, y);
        let e = s.at(x, y);
        if e != d {
            assert(!remaining(g, x, y, level).contains(e));
            let k = choose|k: nat| k <= level && refuted(g.put(x, y, e), k);
            lemma_put(g, x, y, e);
            refuted_is_sound(g.put(x, y, e), k);
            assert(g.put(x, y, e).solvable());
        }
        assert(g.put(x, y, d).solvable());
    }
}

/// In the setting of `hint_is_valid`, a digit available for the cell other
/// than the hint's is refuted at the hint's level.
proof fn lemma_other_digit(g: Board, max_level: int, d: int, x: int, y: int, level: int, c: int)
    requires
        g.valid(),
        hint_of(g, max_level) == Some((d, (x, y), level)),
        g.available(x, y).contains(c),
        c != d,
    ensures
        refuted(g.put(x, y, c), level as nat),
{
    lemma_hint_from(g, 0, max_level, d, x, y, level);
    lemma_forced(g, level, d, x, y);
    lemma_side_bound(g);
    let h = g.put(x, y, c);
    lemma_put(g, x, y, c);
    assert(!remaining(g, x, y, level).contains(c));
    let k = choose|k: nat| k <= level && refuted(g.put(x, y, c), k);
    if k >= 2 {
        lemma_refuted_monotone(h, k, level as nat);
    } else if level >= 2 {
        assert(k == 1);
        assert(unsolvable(h));
        if !h.full() {
            lemma_unsolvable_deepens(h, level as nat);
        } else {
            // Only `(x, y)` is empty in `g`, so it is the pick of level 1,
            // where two digits or more remain for it.
            assert(verdict(g, 1) == Verdict::Open);
            let p = lemma_pick_exists(g, 1);
            let (cx, cy) = choose|x: int, y: int| is_pick(g, x, y, 1);
            if cx != x || cy != y {
                assert(h.at(cx, cy) == g.at(cx, cy));
            }
            let first = remaining(g, x, y, 1);
            lemma_remaining(g, x, y, 1);
            assert(first.len() >= 2);
            let other = first.remove(d).choose();
            assert(first.remove(d).len() >= 1);
            assert(first.remove(d).contains(other));
            assert(!remaining(g, x, y, level).contains(other));
            let j = choose|j: nat| j <= level && refuted(g.put(x, y, other), j);
            assert(!refuted(g.put(x, y, other), 0));
            assert(!refuted(g.put(x, y, other), 1));
            let full = g.put(x, y, other);
            lemma_put(g, x, y, other);
            lemma_refuted_unfold(full, j);
            let (zx, zy) = choose|zx: int, zy: int| dead_end(full, zx, zy, j);
            if zx != x || zy != y {
                assert(full.at(zx, zy) == g.at(zx, zy));
                assert(h.at(zx, zy) == g.at(zx, zy));
            }
        }
    }
}

} // verus!
