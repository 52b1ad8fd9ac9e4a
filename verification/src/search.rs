use crate::board::Board;
use crate::board::lemma_index_bound;
use crate::board::lemma_put;
use crate::board::lemma_side_bound;
use crate::board::lemma_split;
use crate::flags::ascending;
use crate::flags::lemma_ascending;
use crate::rules::unsolvable;
use vstd::prelude::*;

verus! {

/// The cell at place `k` of the row-by-row walk, as (column, row).
pub open spec fn place(g: Board, k: int) -> (int, int) {
    (k % g.side(), k / g.side())
}

/// The empty cells among the first `k` cells of the walk, in the order of
/// the walk.
pub open spec fn blank_cells(g: Board, k: int) -> Seq<(int, int)>
    decreases k,
{
    if k <= 0 {
        Seq::empty()
    } else if g.cells[k - 1] == 0 {
        blank_cells(g, k - 1).push(place(g, k - 1))
    } else {
        blank_cells(g, k - 1)
    }
}

/// The empty cells of the grid, row by row and from left to right.
pub open spec fn empties(g: Board) -> Seq<(int, int)> {
    blank_cells(g, g.cells.len() as int)
}

/// The place of the first entry of `keys` that no other entry is less than.
pub open spec fn first_min(keys: Seq<nat>) -> int
    decreases keys.len(),
{
    if keys.len() <= 1 {
        0
    } else {
        let m = first_min(keys.drop_last());
        if keys.last() < keys[m] {
            keys.len() - 1
        } else {
            m
        }
    }
}

/// The digits available for cell `(x, y)` whose placement leaves no direct
/// problem.
pub open spec fn refined(g: Board, x: int, y: int) -> Set<int> {
    Set::new(|d: int| g.available(x, y).contains(d) && !unsolvable(g.put(x, y, d)))
}

/// The number of available digits of each empty cell.
pub open spec fn raw_sizes(g: Board) -> Seq<nat> {
    empties(g).map_values(|p: (int, int)| g.available(p.0, p.1).len())
}

/// The number of refined digits of each empty cell.
pub open spec fn refined_sizes(g: Board) -> Seq<nat> {
    empties(g).map_values(|p: (int, int)| refined(g, p.0, p.1).len())
}

/// The cell to branch on, with the digits to try there: `None` for a grid
/// without an empty cell. Else the first empty cell with the fewest
/// available digits, with those digits, if they are at most one; else the
/// first empty cell with the fewest refined digits, with those.
pub open spec fn best_options(g: Board) -> Option<(Set<int>, (int, int))> {
    let cells = empties(g);
    if cells.len() == 0 {
        None
    } else {
        let p = cells[first_min(raw_sizes(g))];
        if g.available(p.0, p.1).len() <= 1 {
            Some((g.available(p.0, p.1), p))
        } else {
            let q = cells[first_min(refined_sizes(g))];
            Some((refined(g, q.0, q.1), q))
        }
    }
}

/// The digits that the search tries at the cell it branches on, in the order
/// in which it tries them: ascending.
pub open spec fn digits_to_try(g: Board) -> Seq<int> {
    match best_options(g) {
        Some((f, p)) => ascending(f, 32),
        None => Seq::empty(),
    }
}

/// The grid that the search goes on with after it wrote the `i`-th digit to
/// try into the cell it branches on.
pub open spec fn child(g: Board, i: int) -> Board {
    match best_options(g) {
        Some((f, p)) => g.put(p.0, p.1, digits_to_try(g)[i]),
        None => g,
    }
}

/// What the depth-first search finds first when, at the cell it branches on,
/// it tries the digits from the `i`-th on. A grid without an empty cell is
/// itself what is found if it is solved, and nothing is found in it if it is
/// not; an invalid grid yields nothing.
pub open spec fn first_from(g: Board, i: int) -> Option<Board>
    decreases g.blanks(), digits_to_try(g).len() - i,
{
    if !g.valid() {
        None
    } else if best_options(g) is None {
        if g.solved() {
            Some(g)
        } else {
            None
        }
    } else if 0 <= i < digits_to_try(g).len() {
        proof {
            lemma_child(g, i);
        }
        match first_from(child(g, i), 0) {
            Some(s) => Some(s),
            None => first_from(g, i + 1),
        }
    } else {
        None
    }
}

/// What the depth-first search finds first in the grid.
pub open spec fn first_solution(g: Board) -> Option<Board> {
    first_from(g, 0)
}

/// All that the depth-first search finds, in the order in which it finds
/// them, when at the cell it branches on it tries the digits from the `i`-th
/// on. A grid without an empty cell is found if it is solved, and only then.
pub open spec fn solutions_from(g: Board, i: int) -> Seq<Board>
    decreases g.blanks(), digits_to_try(g).len() - i,
{
    if !g.valid() {
        Seq::empty()
    } else if best_options(g) is None {
        if g.solved() {
            seq![g]
        } else {
            Seq::empty()
        }
    } else if 0 <= i < digits_to_try(g).len() {
        proof {
            lemma_child(g, i);
        }
        solutions_from(child(g, i), 0) + solutions_from(g, i + 1)
    } else {
        Seq::empty()
    }
}

/// All that the depth-first search finds in the grid, in the order in which
/// it finds them.
pub open spec fn solutions(g: Board) -> Seq<Board> {
    solutions_from(g, 0)
}

/// The number of grids that the search visits below and at `g` when it
/// tries the digits from the `i`-th on; `g` itself counts once.
pub open spec fn nodes_from(g: Board, i: int) -> nat
    decreases g.blanks(), digits_to_try(g).len() - i,
{
    if !g.valid() {
        1
    } else if best_options(g) is None {
        1
    } else if 0 <= i < digits_to_try(g).len() {
        proof {
            lemma_child(g, i);
        }
        nodes_from(child(g, i), 0) + nodes_from(g, i + 1)
    } else {
        1
    }
}

/// What the search still finds when the grids of `stack` wait to be
/// searched, the last one first.
pub open spec fn pending(stack: Seq<Board>) -> Seq<Board>
    decreases stack.len(),
{
    if stack.len() == 0 {
        Seq::empty()
    } else {
        solutions(stack.last()) + pending(stack.drop_last())
    }
}

/// The number of grids that the search still visits when the grids of
/// `stack` wait to be searched.
pub open spec fn work(stack: Seq<Board>) -> nat
    decreases stack.len(),
{
    if stack.len() == 0 {
        0
    } else {
        nodes_from(stack.last(), 0) + work(stack.drop_last())
    }
}

/// Each digit to try is available at the cell that the search branches on,
/// and writing it there leaves a valid grid with one empty cell less.
pub proof fn lemma_child(g: Board, i: int)
    requires
        g.valid(),
        0 <= i < digits_to_try(g).len(),
    ensures
        best_options(g) matches Some((f, p)) && g.inside(p.0, p.1) && g.at(p.0, p.1) == 0
            && f.contains(digits_to_try(g)[i]) && g.available(p.0, p.1).contains(
            digits_to_try(g)[i],
        ),
        1 <= digits_to_try(g)[i] <= g.side(),
        child(g, i).valid(),
        child(g, i).blanks() == g.blanks() - 1,
{
    lemma_best_options(g);
    let (f, p) = best_options(g).unwrap();
    lemma_ascending(f, 32);
    let d = digits_to_try(g)[i];
    assert(f.contains(d));
    assert(g.available(p.0, p.1).contains(d));
    lemma_put(g, p.0, p.1, d);
}

/// The first least entry is an entry, no entry is less, and no earlier entry
/// is as small.
pub proof fn lemma_first_min(keys: Seq<nat>)
    requires
        keys.len() > 0,
    ensures
        0 <= first_min(keys) < keys.len(),
        forall|i: int| 0 <= i < keys.len() ==> keys[first_min(keys)] <= #[trigger] keys[i],
        forall|i: int| 0 <= i < first_min(keys) ==> keys[first_min(keys)] < #[trigger] keys[i],
    decreases keys.len(),
{
    if keys.len() > 1 {
        let init = keys.drop_last();
        lemma_first_min(init);
        let m = first_min(init);
        assert forall|i: int| 0 <= i < keys.len() implies keys[first_min(keys)] <= #[trigger] keys[i] by {
            if i < init.len() {
                assert(init[i] == keys[i]);
                assert(init[m] <= init[i]);
            }
        }
        assert forall|i: int| 0 <= i < first_min(keys) implies keys[first_min(keys)] < #[trigger] keys[i] by {
            assert(init[i] == keys[i]);
            assert(init[m] <= init[i]);
            if i < m {
                assert(init[m] < init[i]);
            }
        }
    }
}

/// The empty cells listed among the first `k` are cells of the grid that
/// are empty, in the order of the walk, and every empty cell among the first
/// `k` is listed.
pub proof fn lemma_blank_cells(g: Board, k: int)
    requires
        g.valid(),
        0 <= k <= g.cells.len(),
    ensures
        blank_cells(g, k).len() <= k,
        forall|i: int|
            0 <= i < blank_cells(g, k).len() ==> {
                let p = #[trigger] blank_cells(g, k)[i];
                g.inside(p.0, p.1) && g.at(p.0, p.1) == 0 && g.index(p.0, p.1) < k
            },
        forall|i: int, j: int|
            0 <= i < j < blank_cells(g, k).len() ==> {
                let p = #[trigger] blank_cells(g, k)[i];
                let q = #[trigger] blank_cells(g, k)[j];
                g.index(p.0, p.1) < g.index(q.0, q.1)
            },
        forall|x: int, y: int|
            g.inside(x, y) && g.index(x, y) < k && #[trigger] g.at(x, y) == 0 ==> blank_cells(
                g,
                k,
            ).contains((x, y)),
    decreases k,
{
    if k > 0 {
        lemma_blank_cells(g, k - 1);
        lemma_side_bound(g);
        let side = g.side();
        assert(side > 0) by (nonlinear_arith)
            requires
                0 <= side,
                0 < k <= side * side,
        ;
        lemma_split(side, k - 1);
        let prev = blank_cells(g, k - 1);
        let cur = blank_cells(g, k);
        let p = place(g, k - 1);
        assert(g.index(p.0, p.1) == k - 1);
        assert forall|x: int, y: int|
            g.inside(x, y) && g.index(x, y) < k && #[trigger] g.at(x, y) == 0 implies cur.contains(
            (x, y),
        ) by {
            if g.index(x, y) < k - 1 {
                let i = choose|i: int| 0 <= i < prev.len() && prev[i] == (x, y);
                assert(cur[i] == (x, y));
            } else {
                vstd::arithmetic::div_mod::lemma_fundamental_div_mod_converse(k - 1, side, y, x);
                assert(cur[cur.len() - 1] == (x, y));
            }
        }
    }
}

/// A valid grid has no empty cell exactly when `empties` lists none.
pub proof fn lemma_empties(g: Board)
    requires
        g.valid(),
    ensures
        empties(g).len() == 0 <==> g.full(),
        forall|i: int|
            0 <= i < empties(g).len() ==> {
                let p = #[trigger] empties(g)[i];
                g.inside(p.0, p.1) && g.at(p.0, p.1) == 0
            },
        forall|x: int, y: int|
            g.inside(x, y) && #[trigger] g.at(x, y) == 0 ==> empties(g).contains((x, y)),
{
    lemma_blank_cells(g, g.cells.len() as int);
    assert forall|x: int, y: int| g.inside(x, y) && #[trigger] g.at(x, y) == 0 implies empties(
        g,
    ).contains((x, y)) by {
        lemma_index_bound(g.side(), x, y);
    }
    if empties(g).len() > 0 {
        let p = empties(g)[0];
        assert(g.inside(p.0, p.1) && g.at(p.0, p.1) == 0);
    }
}

/// What the branch selector returns on a valid grid: nothing exactly when
/// no cell is empty; else an empty cell, with available digits only, among
/// which each one left out leads to a direct problem.
pub proof fn lemma_best_options(g: Board)
    requires
        g.valid(),
    ensures
        best_options(g) is None <==> g.full(),
        best_options(g) matches Some((f, p)) ==> {
            &&& g.inside(p.0, p.1)
            &&& g.at(p.0, p.1) == 0
            &&& f.subset_of(g.available(p.0, p.1))
            &&& forall|d: int|
                g.available(p.0, p.1).contains(d) && !f.contains(d) ==> unsolvable(
                    #[trigger] g.put(p.0, p.1, d),
                )
        },
{
    lemma_empties(g);
    let cells = empties(g);
    if cells.len() > 0 {
        lemma_first_min(raw_sizes(g));
        lemma_first_min(refined_sizes(g));
        let p = cells[first_min(raw_sizes(g))];
        let q = cells[first_min(refined_sizes(g))];
        assert(g.inside(p.0, p.1) && g.at(p.0, p.1) == 0);
        assert(g.inside(q.0, q.1) && g.at(q.0, q.1) == 0);
    }
}

} // verus!
