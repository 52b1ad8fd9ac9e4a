use crate::board::Board;
use crate::board::Unit;
use crate::board::lemma_cell_bound;
use crate::board::lemma_put;
use crate::board::lemma_unit_cell;
use crate::board::lemma_unit_distinct;
use crate::board::lemma_unit_of_cell;
use crate::matching::has_sdr;
use crate::matching::is_sdr;
use vstd::prelude::*;

verus! {

/// Cell `(x, y)` is empty and no digit is available for it.
pub open spec fn stuck(g: Board, x: int, y: int) -> bool {
    g.inside(x, y) && g.at(x, y) == 0 && g.available(x, y) == Set::<int>::empty()
}

/// The cells of unit `u` cannot all get different digits from their options.
pub open spec fn jammed(g: Board, u: Unit) -> bool {
    u.valid(g.n()) && !has_sdr(g.unit_options(u))
}

/// The grid shows a direct problem: an empty cell without an available
/// digit, or a unit whose cells cannot all get different digits. This is a
/// check that can be made at once, not the whole question: a grid with a
/// direct problem has no solution, but a grid without one may have none
/// either.
pub open spec fn unsolvable(g: Board) -> bool {
    (exists|x: int, y: int| stuck(g, x, y)) || (exists|u: Unit| jammed(g, u))
}

/// Whether the grid can be shown to have no solution by trying digits up to
/// `level` deep: level 0 shows nothing, level 1 is the direct check, and a
/// higher level asks for an empty cell each of whose available digits leads
/// to a direct problem or to a grid that the level below refutes.
pub open spec fn refuted(g: Board, level: nat) -> bool
    decreases level,
{
    if level == 0 {
        false
    } else if level == 1 {
        unsolvable(g)
    } else {
        exists|x: int, y: int|
            #![trigger g.at(x, y)]
            g.inside(x, y) && g.at(x, y) == 0 && forall|d: int| #[trigger]
                g.available(x, y).contains(d) ==> unsolvable(g.put(x, y, d)) || refuted(
                    g.put(x, y, d),
                    (level - 1) as nat,
                )
    }
}

/// The grid shows a direct problem or is refuted at `level`.
pub open spec fn fails(g: Board, level: nat) -> bool {
    unsolvable(g) || refuted(g, level)
}

/// Cell `(x, y)` is empty, and each digit available for it leads to a
/// direct problem or to a grid refuted at the level below `level`.
pub open spec fn dead_end(g: Board, x: int, y: int, level: nat) -> bool {
    &&& level >= 2
    &&& g.inside(x, y)
    &&& g.at(x, y) == 0
    &&& forall|d: int| #[trigger]
        g.available(x, y).contains(d) ==> fails(g.put(x, y, d), (level - 1) as nat)
}

/// Above level 1 a grid is refuted exactly when it has a dead end.
pub proof fn lemma_refuted_unfold(g: Board, level: nat)
    requires
        level >= 2,
    ensures
        refuted(g, level) == exists|x: int, y: int| dead_end(g, x, y, level),
{
    if refuted(g, level) {
        let (x, y) = choose|x: int, y: int|
            #![trigger g.at(x, y)]
            g.inside(x, y) && g.at(x, y) == 0 && forall|d: int| #[trigger]
                g.available(x, y).contains(d) ==> unsolvable(g.put(x, y, d)) || refuted(
                    g.put(x, y, d),
                    (level - 1) as nat,
                );
        assert(dead_end(g, x, y, level));
    }
    if exists|x: int, y: int| dead_end(g, x, y, level) {
        let (x, y) = choose|x: int, y: int| dead_end(g, x, y, level);
        assert(g.at(x, y) == 0);
    }
}

/// A grid that completes a completion of `g` completes `g`.
pub proof fn lemma_completes_transitive(g: Board, h: Board, s: Board)
    requires
        h.completes(g),
        s.completes(h),
    ensures
        s.completes(g),
{
    assert forall|x: int, y: int| g.inside(x, y) && #[trigger] g.at(x, y) != 0 implies s.at(x, y)
        == g.at(x, y) by {
        assert(h.at(x, y) == g.at(x, y));
    }
}

/// In a solved completion of `g`, each cell holds one of the options that
/// `g` leaves it.
pub proof fn lemma_solution_digit(g: Board, s: Board, x: int, y: int)
    requires
        g.valid(),
        s.solved(),
        s.completes(g),
        g.inside(x, y),
    ensures
        g.options(x, y).contains(s.at(x, y)),
        1 <= s.at(x, y) <= g.side(),
{
    lemma_cell_bound(s, x, y);
    lemma_cell_bound(g, x, y);
    let d = s.at(x, y);
    if g.at(x, y) == 0 {
        if g.used(x, y).contains(d) {
            let u = if g.unit_digits(Unit::Row(y)).contains(d) {
                Unit::Row(y)
            } else if g.unit_digits(Unit::Column(x)).contains(d) {
                Unit::Column(x)
            } else {
                Unit::Block(x / g.n(), y / g.n())
            };
            assert(g.unit_digits(u).contains(d));
            let i = choose|i: int| 0 <= i < g.side() && #[trigger] g.unit_at(u, i) == d;
            let x2 = u.x(g.n(), i);
            let y2 = u.y(g.n(), i);
            lemma_unit_of_cell(g, x, y, u, i);
            assert(g.at(x2, y2) == d);
            assert(s.at(x2, y2) == d);
            assert(s.conflict(x, y, x2, y2));
        }
    }
}

/// A solved completion of `g` picks, in each unit, a different option for
/// each cell.
pub proof fn lemma_solution_sdr(g: Board, s: Board, u: Unit)
    requires
        g.valid(),
        s.solved(),
        s.completes(g),
        u.valid(g.n()),
    ensures
        has_sdr(g.unit_options(u)),
{
    let n = g.n();
    let pick = Seq::new(g.side() as nat, |i: int| s.unit_at(u, i));
    let sets = g.unit_options(u);
    assert forall|i: int| 0 <= i < sets.len() implies sets[i].contains(#[trigger] pick[i]) by {
        lemma_unit_cell(g, u, i);
        lemma_solution_digit(g, s, u.x(n, i), u.y(n, i));
    }
    assert forall|i: int, j: int| 0 <= i < j < sets.len() implies #[trigger] pick[i]
        != #[trigger] pick[j] by {
        lemma_unit_cell(g, u, i);
        lemma_unit_cell(g, u, j);
        lemma_unit_distinct(g, u, i, j);
        let xi = u.x(n, i);
        let yi = u.y(n, i);
        let xj = u.x(n, j);
        let yj = u.y(n, j);
        assert(s.at(xi, yi) != 0);
        assert(!s.conflict(xi, yi, xj, yj));
    }
    assert(is_sdr(sets, pick));
}

/// A grid with a direct problem has no solution, and neither has any grid
/// that completes it.
pub proof fn unsolvable_is_sound(g: Board, h: Board)
    requires
        g.valid(),
        unsolvable(g),
        h.completes(g),
    ensures
        !h.solvable(),
{
    if h.solvable() {
        let s = choose|s: Board| #[trigger] s.solved() && s.completes(h);
        lemma_completes_transitive(g, h, s);
        if exists|x: int, y: int| stuck(g, x, y) {
            let (x, y) = choose|x: int, y: int| stuck(g, x, y);
            lemma_solution_digit(g, s, x, y);
        } else {
            let u = choose|u: Unit| jammed(g, u);
            lemma_solution_sdr(g, s, u);
        }
    }
}

/// A valid grid completes itself.
pub proof fn lemma_completes_self(g: Board)
    requires
        g.valid(),
    ensures
        g.completes(g),
{
}

/// A solved completion of `g` holds, in an empty cell of `g`, a digit that
/// is available there, and completes `g` with that digit written in.
pub proof fn lemma_solution_step(g: Board, s: Board, x: int, y: int)
    requires
        g.valid(),
        s.solved(),
        s.completes(g),
        g.inside(x, y),
        g.at(x, y) == 0,
    ensures
        g.available(x, y).contains(s.at(x, y)),
        s.completes(g.put(x, y, s.at(x, y))),
{
    lemma_solution_digit(g, s, x, y);
    let d = s.at(x, y);
    lemma_put(g, x, y, d);
    let h = g.put(x, y, d);
    assert forall|x2: int, y2: int| h.inside(x2, y2) && #[trigger] h.at(x2, y2) != 0 implies s.at(
        x2,
        y2,
    ) == h.at(x2, y2) by {
        if x2 != x || y2 != y {
            assert(h.at(x2, y2) == g.at(x2, y2));
        }
    }
}

/// A grid that completes `g` with a digit written into an empty cell
/// completes `g`, and holds that digit there.
pub proof fn lemma_step_completes(g: Board, s: Board, x: int, y: int, d: int)
    requires
        g.valid(),
        g.inside(x, y),
        g.at(x, y) == 0,
        1 <= d <= g.side(),
        s.completes(g.put(x, y, d)),
    ensures
        s.completes(g),
        s.at(x, y) == d,
{
    lemma_put(g, x, y, d);
    let h = g.put(x, y, d);
    assert(h.at(x, y) != 0);
    assert forall|x2: int, y2: int| g.inside(x2, y2) && #[trigger] g.at(x2, y2) != 0 implies s.at(
        x2,
        y2,
    ) == g.at(x2, y2) by {
        assert(h.at(x2, y2) == g.at(x2, y2));
    }
}

/// Writing an available digit into an empty cell leaves no cell of the grid
/// an option that it did not have.
pub proof fn lemma_put_options(g: Board, x: int, y: int, d: int, x2: int, y2: int)
    requires
        g.valid(),
        g.inside(x, y),
        g.inside(x2, y2),
        g.at(x, y) == 0,
        g.available(x, y).contains(d),
    ensures
        g.put(x, y, d).options(x2, y2).subset_of(g.options(x2, y2)),
{
    lemma_put(g, x, y, d);
    let h = g.put(x, y, d);
    if x2 != x || y2 != y {
        assert(h.at(x2, y2) == g.at(x2, y2));
        if g.at(x2, y2) == 0 {
            assert forall|e: int| h.available(x2, y2).contains(e) implies g.available(
                x2,
                y2,
            ).contains(e) by {
                if g.used(x2, y2).contains(e) {
                    let u = if g.unit_digits(Unit::Row(y2)).contains(e) {
                        Unit::Row(y2)
                    } else if g.unit_digits(Unit::Column(x2)).contains(e) {
                        Unit::Column(x2)
                    } else {
                        Unit::Block(x2 / g.n(), y2 / g.n())
                    };
                    let i = choose|i: int| 0 <= i < g.side() && #[trigger] g.unit_at(u, i) == e;
                    lemma_unit_of_cell(g, x2, y2, u, i);
                    assert(h.at(u.x(g.n(), i), u.y(g.n(), i)) == e);
                    assert(h.unit_at(u, i) == e);
                    assert(h.unit_digits(u).contains(e));
                    assert(h.used(x2, y2).contains(e));
                }
            }
        }
    }
}

/// A unit whose cells cannot all get different digits stays so when an
/// available digit is written into an empty cell.
pub proof fn lemma_jam_persists(g: Board, x: int, y: int, d: int, u: Unit)
    requires
        g.valid(),
        g.inside(x, y),
        g.at(x, y) == 0,
        g.available(x, y).contains(d),
        jammed(g, u),
    ensures
        jammed(g.put(x, y, d), u),
{
    let h = g.put(x, y, d);
    if has_sdr(h.unit_options(u)) {
        let pick = choose|pick: Seq<int>| is_sdr(h.unit_options(u), pick);
        assert forall|i: int| 0 <= i < g.unit_options(u).len() implies g.unit_options(
            u,
        )[i].contains(#[trigger] pick[i]) by {
            lemma_unit_cell(g, u, i);
            lemma_put_options(g, x, y, d, u.x(g.n(), i), u.y(g.n(), i));
            assert(h.unit_options(u)[i].contains(pick[i]));
        }
        assert(is_sdr(g.unit_options(u), pick));
    }
}

/// A grid with a direct problem and an empty cell is refuted at every level
/// from 2 on.
pub proof fn lemma_unsolvable_deepens(g: Board, level: nat)
    requires
        g.valid(),
        unsolvable(g),
        !g.full(),
        level >= 2,
    ensures
        refuted(g, level),
{
    lemma_refuted_unfold(g, level);
    if exists|x: int, y: int| stuck(g, x, y) {
        let (x, y) = choose|x: int, y: int| stuck(g, x, y);
        assert(dead_end(g, x, y, level));
    } else {
        let u = choose|u: Unit| jammed(g, u);
        let (x, y) = choose|x: int, y: int| g.inside(x, y) && #[trigger] g.at(x, y) == 0;
        assert forall|d: int| #[trigger] g.available(x, y).contains(d) implies fails(
            g.put(x, y, d),
            (level - 1) as nat,
        ) by {
            lemma_jam_persists(g, x, y, d, u);
        }
        assert(dead_end(g, x, y, level));
    }
}

/// A grid refuted at a level from 2 on is refuted at every higher level.
pub proof fn lemma_refuted_monotone(g: Board, level: nat, higher: nat)
    requires
        2 <= level <= higher,
        refuted(g, level),
    ensures
        refuted(g, higher),
    decreases level,
{
    lemma_refuted_unfold(g, level);
    lemma_refuted_unfold(g, higher);
    let (x, y) = choose|x: int, y: int| dead_end(g, x, y, level);
    assert forall|d: int| #[trigger] g.available(x, y).contains(d) implies fails(
        g.put(x, y, d),
        (higher - 1) as nat,
    ) by {
        let h = g.put(x, y, d);
        assert(fails(h, (level - 1) as nat));
        if !unsolvable(h) {
            assert(level - 1 >= 2);
            lemma_refuted_monotone(h, (level - 1) as nat, (higher - 1) as nat);
        }
    }
    assert(dead_end(g, x, y, higher));
}

/// A grid that is refuted at some level has no solution.
pub proof fn refuted_is_sound(g: Board, level: nat)
    requires
        g.valid(),
        refuted(g, level),
    ensures
        !g.solvable(),
    decreases level,
{
    if level == 1 {
        lemma_completes_self(g);
        unsolvable_is_sound(g, g);
    } else if level >= 2 {
        if g.solvable() {
            let s = choose|s: Board| #[trigger] s.solved() && s.completes(g);
            lemma_refuted_unfold(g, level);
            let (x, y) = choose|x: int, y: int| dead_end(g, x, y, level);
            lemma_solution_step(g, s, x, y);
            let d = s.at(x, y);
            let h = g.put(x, y, d);
            lemma_solution_digit(g, s, x, y);
            lemma_put(g, x, y, d);
            assert(g.available(x, y).contains(d));
            assert(fails(h, (level - 1) as nat));
            assert(h.solvable());
            if unsolvable(h) {
                lemma_completes_self(h);
                unsolvable_is_sound(h, h);
            } else {
                refuted_is_sound(h, (level - 1) as nat);
            }
        }
    }
}

} // verus!
