use crate::board::Board;
use crate::board::lemma_cell_bound;
use crate::board::lemma_put;
use crate::board::lemma_side_bound;
use crate::board::lemma_split;
use crate::flags::lemma_ascending;
use crate::rules::lemma_completes_self;
use crate::rules::lemma_solution_step;
use crate::rules::lemma_step_completes;
use crate::rules::unsolvable;
use crate::rules::unsolvable_is_sound;
use crate::search::best_options;
use crate::search::child;
use crate::search::digits_to_try;
use crate::search::first_from;
use crate::search::first_solution;
use crate::search::lemma_best_options;
use crate::search::lemma_child;
use crate::search::solutions;
use crate::search::solutions_from;
use vstd::prelude::*;
use vstd::seq_lib::lemma_no_dup_in_concat;

verus! {

/// `s` is a solved completion of `g` which holds, in the cell that the
/// search branches on, one of the digits that it tries from the `i`-th on.
pub open spec fn found_from(g: Board, i: int, s: Board) -> bool {
    &&& s.solved()
    &&& s.completes(g)
    &&& best_options(g) matches Some((f, p)) ==> exists|j: int|
        i <= j < digits_to_try(g).len() && #[trigger] digits_to_try(g)[j] == s.at(p.0, p.1)
}

/// The only grid that completes a grid without an empty cell is that grid.
pub proof fn lemma_full_complete(g: Board, s: Board)
    requires
        g.valid(),
        g.full(),
        s.completes(g),
    ensures
        s == g,
{
    lemma_side_bound(g);
    let side = g.side();
    assert(s.side() == side);
    assert forall|k: int| 0 <= k < g.cells.len() implies s.cells[k] == g.cells[k] by {
        assert(side > 0) by (nonlinear_arith)
            requires
                0 <= side,
                0 <= k < side * side,
        ;
        lemma_split(side, k);
        let x = k % side;
        let y = k / side;
        assert(g.index(x, y) == k);
        assert(g.at(x, y) != 0);
        assert(s.at(x, y) == g.at(x, y));
    }
    assert(s.cells =~= g.cells);
}

/// A solved completion of `g` holds, in the cell that the search branches
/// on, one of the digits that the search tries there.
pub proof fn lemma_cover(g: Board, s: Board)
    requires
        g.valid(),
        s.solved(),
        s.completes(g),
        best_options(g) is Some,
    ensures
        found_from(g, 0, s),
{
    lemma_best_options(g);
    let (f, p) = best_options(g).unwrap();
    let d = s.at(p.0, p.1);
    lemma_solution_step(g, s, p.0, p.1);
    if !f.contains(d) {
        let h = g.put(p.0, p.1, d);
        assert(unsolvable(h));
        lemma_cell_bound(s, p.0, p.1);
        lemma_put(g, p.0, p.1, d);
        lemma_completes_self(h);
        unsolvable_is_sound(h, h);
        assert(s.solved() && s.completes(h));
        assert(h.solvable());
    }
    lemma_ascending(f, 32);
    lemma_side_bound(g);
    assert(f.contains(d) && 1 <= d <= 32);
    assert(digits_to_try(g).contains(d));
    let j = choose|j: int| 0 <= j < digits_to_try(g).len() && digits_to_try(g)[j] == d;
    assert(0 <= j < digits_to_try(g).len() && digits_to_try(g)[j] == s.at(p.0, p.1));
}

/// What the search finds from the `i`-th digit on are exactly the solved
/// completions that hold one of those digits in the cell it branches on,
/// each once.
pub proof fn lemma_solutions_from(g: Board, i: int)
    requires
        g.valid(),
        0 <= i,
    ensures
        forall|s: Board| #[trigger] solutions_from(g, i).contains(s) <==> found_from(g, i, s),
        solutions_from(g, i).no_duplicates(),
    decreases g.blanks(), digits_to_try(g).len() - i,
{
    lemma_best_options(g);
    let all = solutions_from(g, i);
    if best_options(g) is None {
        lemma_completes_self(g);
        assert forall|s: Board| #[trigger] all.contains(s) <==> found_from(g, i, s) by {
            if all.contains(s) {
                assert(s == g);
            }
            if found_from(g, i, s) {
                lemma_full_complete(g, s);
                assert(all[0] == s);
            }
        }
    } else if i < digits_to_try(g).len() {
        let (f, p) = best_options(g).unwrap();
        let ds = digits_to_try(g);
        lemma_child(g, i);
        lemma_ascending(f, 32);
        let h = child(g, i);
        lemma_solutions_from(h, 0);
        lemma_solutions_from(g, i + 1);
        let a = solutions_from(h, 0);
        let b = solutions_from(g, i + 1);
        assert(all == a + b);
        assert forall|s: Board| #[trigger] all.contains(s) implies found_from(g, i, s) by {
            let k = choose|k: int| 0 <= k < all.len() && all[k] == s;
            if k < a.len() {
                assert(a[k] == s);
                assert(a.contains(s));
                assert(found_from(h, 0, s));
                lemma_step_completes(g, s, p.0, p.1, ds[i]);
                assert(ds[i] == s.at(p.0, p.1));
            } else {
                assert(b[k - a.len()] == s);
                assert(b.contains(s));
                assert(found_from(g, i + 1, s));
                let j = choose|j: int| i + 1 <= j < ds.len() && #[trigger] ds[j] == s.at(p.0, p.1);
                assert(i <= j < ds.len() && ds[j] == s.at(p.0, p.1));
            }
        }
        assert forall|s: Board| found_from(g, i, s) implies #[trigger] all.contains(s) by {
            let j = choose|j: int| i <= j < ds.len() && #[trigger] ds[j] == s.at(p.0, p.1);
            if j == i {
                lemma_solution_step(g, s, p.0, p.1);
                if best_options(h) is Some {
                    lemma_cover(h, s);
                }
                assert(found_from(h, 0, s));
                assert(a.contains(s));
                let k = choose|k: int| 0 <= k < a.len() && a[k] == s;
                assert(all[k] == s);
            } else {
                assert(i + 1 <= j < ds.len() && ds[j] == s.at(p.0, p.1));
                assert(found_from(g, i + 1, s));
                assert(b.contains(s));
                let k = choose|k: int| 0 <= k < b.len() && b[k] == s;
                assert(all[a.len() + k] == s);
            }
        }
        assert forall|k: int, m: int| 0 <= k < a.len() && 0 <= m < b.len() implies a[k] != b[m] by {
            assert(a.contains(a[k]));
            assert(b.contains(b[m]));
            assert(found_from(h, 0, a[k]));
            assert(found_from(g, i + 1, b[m]));
            lemma_step_completes(g, a[k], p.0, p.1, ds[i]);
            let j = choose|j: int|
                i + 1 <= j < ds.len() && #[trigger] ds[j] == b[m].at(p.0, p.1);
            assert(ds[i] < ds[j]);
        }
        lemma_no_dup_in_concat(a, b);
    } else {
        assert forall|s: Board| #[trigger] all.contains(s) <==> found_from(g, i, s) by {
            if found_from(g, i, s) {
                let (f, p) = best_options(g).unwrap();
                let j = choose|j: int|
                    i <= j < digits_to_try(g).len() && #[trigger] digits_to_try(g)[j] == s.at(
                        p.0,
                        p.1,
                    );
            }
        }
    }
}

/// The search finds exactly the grids that are solved and keep every digit
/// of the grid, and finds none of them twice. A grid that repeats a digit in
/// a row, a column or a box has no such grid, and the search finds none.
pub proof fn solutions_are_the_solved_completions(g: Board)
    requires
        g.valid(),
    ensures
        forall|s: Board| #[trigger] solutions(g).contains(s) <==> s.solved() && s.completes(g),
        solutions(g).no_duplicates(),
{
    lemma_solutions_from(g, 0);
    assert forall|s: Board| s.solved() && s.completes(g) implies found_from(g, 0, s) by {
        if best_options(g) is Some {
            lemma_cover(g, s);
        }
    }
}

/// What the search finds first is the first of all that it finds.
pub proof fn first_solution_heads_solutions(g: Board, i: int)
    requires
        0 <= i,
    ensures
        first_from(g, i) == (if solutions_from(g, i).len() > 0 {
            Some(solutions_from(g, i)[0])
        } else {
            None
        }),
    decreases g.blanks(), digits_to_try(g).len() - i,
{
    if g.valid() && best_options(g) is Some && i < digits_to_try(g).len() {
        lemma_child(g, i);
        first_solution_heads_solutions(child(g, i), 0);
        first_solution_heads_solutions(g, i + 1);
    }
}

/// On a valid grid that has a solution, the search finds a solved grid,
/// which keeps every digit of the grid and so differs from it in its empty
/// cells only.
pub proof fn solvable_grid_is_solved(g: Board)
    requires
        g.valid(),
        g.solvable(),
    ensures
        first_solution(g) matches Some(s) && s.solved() && s.completes(g),
{
    solutions_are_the_solved_completions(g);
    first_solution_heads_solutions(g, 0);
    let s = choose|s: Board| #[trigger] s.solved() && s.completes(g);
    assert(solutions(g).contains(s));
    assert(solutions(g).contains(solutions(g)[0]));
}

/// The search finds a grid exactly when the grid has a solution, and what it
/// finds is a solved grid that keeps every digit of the grid.
pub proof fn first_solution_is_sound(g: Board)
    requires
        g.valid(),
    ensures
        first_solution(g) matches Some(s) ==> s.solved() && s.completes(g),
        first_solution(g) is Some <==> g.solvable(),
{
    solutions_are_the_solved_completions(g);
    first_solution_heads_solutions(g, 0);
    if solutions(g).len() > 0 {
        assert(solutions(g).contains(solutions(g)[0]));
    }
    if g.solvable() {
        solvable_grid_is_solved(g);
    }
}

} // verus!
