use crate::abort_lock::AbortLock;
use crate::all_solutions::SolutionIter;
use crate::board::Board;
use crate::board::Unit;
use crate::board::lemma_index_bound;
use crate::correctness::first_solution_is_sound;
use crate::correctness::solutions_are_the_solved_completions;
use crate::flags::Flags;
use crate::flags::ascending;
use crate::flags::digits_of;
use crate::flags::lemma_ascending;
use crate::flags::lemma_ascending_filter;
use crate::hints::hint_from;
use crate::hints::hint_is_valid;
use crate::hints::hint_of;
use crate::hints::is_pick;
use crate::hints::lemma_pick_unique;
use crate::hints::lemma_remaining;
use crate::hints::ranks_first;
use crate::hints::remaining;
use crate::matching::has_perfect_matching;
use crate::order::sorted_by_count;
use crate::order::stably_sorted;
use crate::rules::dead_end;
use crate::rules::fails;
use crate::rules::jammed;
use crate::rules::lemma_completes_self;
use crate::rules::lemma_refuted_unfold;
use crate::rules::refuted;
use crate::rules::refuted_is_sound;
use crate::rules::stuck;
use crate::rules::unsolvable;
use crate::rules::unsolvable_is_sound;
use crate::search::best_options;
use crate::search::blank_cells;
use crate::search::child;
use crate::search::digits_to_try;
use crate::search::empties;
use crate::search::first_from;
use crate::search::first_min;
use crate::search::first_solution;
use crate::search::lemma_best_options;
use crate::search::lemma_blank_cells;
use crate::search::lemma_child;
use crate::search::lemma_empties;
use crate::search::lemma_first_min;
use crate::search::raw_sizes;
use crate::search::refined;
use crate::search::refined_sizes;
use crate::search::solutions;
use crate::sudoku::Sudoku;
use vstd::prelude::*;

verus! {

/// Every cell of the grid is the cell at some place of the row-by-row walk.
pub proof fn lemma_walk(g: Board, x: int, y: int)
    requires
        g.valid(),
        g.inside(x, y),
    ensures
        0 <= g.index(x, y) < g.cells.len(),
        g.index(x, y) % g.side() == x,
        g.index(x, y) / g.side() == y,
{
    lemma_index_bound(g.side(), x, y);
    vstd::arithmetic::div_mod::lemma_fundamental_div_mod_converse(g.index(x, y), g.side(), y, x);
}

/// A valid grid with a direct problem has no solution.
proof fn lemma_flagged(g: Board)
    requires
        g.valid(),
        unsolvable(g),
    ensures
        !g.solvable(),
{
    lemma_completes_self(g);
    unsolvable_is_sound(g, g);
}

/// Checks for direct problems in this grid: an empty cell for which no digit
/// is available, or a row, column or box whose cells cannot all get different
/// digits.
pub fn is_unsolvable(sudoku: &Sudoku) -> (r: bool)
    requires
        sudoku.wf(),
    ensures
        r == unsolvable(sudoku@),
        r ==> !sudoku@.solvable(),
{
    let side = sudoku.board_size();
    let n = sudoku.box_size();
    let count = sudoku.cell_count();
    let ghost g = sudoku@;
    let mut k: usize = 0;
    while k < count
        invariant
            sudoku.wf(),
            g == sudoku@,
            count == g.cells.len(),
            k <= count,
            forall|x: int, y: int| g.inside(x, y) && g.index(x, y) < k ==> !stuck(g, x, y),
        decreases count - k,
    {
        let (d, pos) = sudoku.nth(k);
        if d == 0 && sudoku.available(pos).is_empty() {
            proof {
                assert(stuck(g, pos.0 as int, pos.1 as int));
                lemma_flagged(g);
            }
            return true;
        }
        assert forall|x: int, y: int| g.inside(x, y) && g.index(x, y) < k + 1 implies !stuck(
            g,
            x,
            y,
        ) by {
            lemma_walk(g, x, y);
        }
        k += 1;
    }
    assert forall|x: int, y: int| !stuck(g, x, y) by {
        if g.inside(x, y) {
            lemma_walk(g, x, y);
        }
    }
    let mut y: usize = 0;
    while y < side
        invariant
            sudoku.wf(),
            g == sudoku@,
            side == g.side(),
            y <= side,
            forall|j: int| 0 <= j < y ==> !jammed(g, Unit::Row(j)),
        decreases side - y,
    {
        if !has_perfect_matching(sudoku.iter_row_avail(y)) {
            proof {
                assert(jammed(g, Unit::Row(y as int)));
                lemma_flagged(g);
            }
            return true;
        }
        y += 1;
    }
    let mut x: usize = 0;
    while x < side
        invariant
            sudoku.wf(),
            g == sudoku@,
            side == g.side(),
            x <= side,
            forall|j: int| 0 <= j < x ==> !jammed(g, Unit::Column(j)),
        decreases side - x,
    {
        if !has_perfect_matching(sudoku.iter_column_avail(x)) {
            proof {
                assert(jammed(g, Unit::Column(x as int)));
                lemma_flagged(g);
            }
            return true;
        }
        x += 1;
    }
    let mut bx: usize = 0;
    while bx < n
        invariant
            sudoku.wf(),
            g == sudoku@,
            n == g.n(),
            bx <= n,
            forall|i: int, j: int| 0 <= i < bx && 0 <= j < n ==> !jammed(g, Unit::Block(i, j)),
        decreases n - bx,
    {
        let mut by: usize = 0;
        while by < n
            invariant
                sudoku.wf(),
                g == sudoku@,
                n == g.n(),
                bx < n,
                by <= n,
                forall|i: int, j: int| 0 <= i < bx && 0 <= j < n ==> !jammed(g, Unit::Block(i, j)),
                forall|j: int| 0 <= j < by ==> !jammed(g, Unit::Block(bx as int, j)),
            decreases n - by,
        {
            if !has_perfect_matching(sudoku.iter_box_avail((bx, by))) {
                proof {
                    assert(jammed(g, Unit::Block(bx as int, by as int)));
                    lemma_flagged(g);
                }
                return true;
            }
            by += 1;
        }
        bx += 1;
    }
    assert forall|u: Unit| !jammed(g, u) by {
        match u {
            Unit::Row(j) => {
                if 0 <= j < side {
                    assert(!jammed(g, Unit::Row(j)));
                }
            },
            Unit::Column(j) => {
                if 0 <= j < side {
                    assert(!jammed(g, Unit::Column(j)));
                }
            },
            Unit::Block(i, j) => {
                if 0 <= i < n && 0 <= j < n {
                    assert(!jammed(g, Unit::Block(i, j)));
                }
            },
        }
    }
    false
}

/// The positions of a list of cells with their candidate sets.
pub open spec fn positions(options: Seq<(Flags, (usize, usize))>) -> Seq<(int, int)> {
    options.map_values(|e: (Flags, (usize, usize))| (e.1.0 as int, e.1.1 as int))
}

/// The sizes of the candidate sets of a list of cells.
pub open spec fn sizes(options: Seq<(Flags, (usize, usize))>) -> Seq<nat> {
    options.map_values(|e: (Flags, (usize, usize))| e.0@.len())
}

/// The empty cells of the grid in the order of the walk, each with its
/// available digits.
fn raw_options(sudoku: &Sudoku) -> (r: Vec<(Flags, (usize, usize))>)
    requires
        sudoku.wf(),
    ensures
        positions(r@) == empties(sudoku@),
        forall|i: int|
            0 <= i < r@.len() ==> (#[trigger] r@[i]).0@ == sudoku@.available(
                r@[i].1.0 as int,
                r@[i].1.1 as int,
            ) && sudoku@.inside(r@[i].1.0 as int, r@[i].1.1 as int),
{
    let count = sudoku.cell_count();
    let ghost g = sudoku@;
    let mut r: Vec<(Flags, (usize, usize))> = Vec::new();
    let mut k: usize = 0;
    while k < count
        invariant
            sudoku.wf(),
            g == sudoku@,
            count == g.cells.len(),
            k <= count,
            positions(r@) =~= blank_cells(g, k as int),
            forall|i: int|
                0 <= i < r@.len() ==> (#[trigger] r@[i]).0@ == g.available(
                    r@[i].1.0 as int,
                    r@[i].1.1 as int,
                ) && g.inside(r@[i].1.0 as int, r@[i].1.1 as int),
        decreases count - k,
    {
        let (d, pos) = sudoku.nth(k);
        if d == 0 {
            let f = sudoku.available(pos);
            r.push((f, pos));
        }
        k += 1;
    }
    r
}

/// The place of the first cell of `options` with the fewest candidates.
fn fewest(options: &Vec<(Flags, (usize, usize))>) -> (best: usize)
    requires
        options@.len() > 0,
    ensures
        best == first_min(sizes(options@)),
        best < options@.len(),
{
    let mut best: usize = 0;
    let mut least: usize = options[0].0.size();
    let mut i: usize = 1;
    assert(sizes(options@.take(1)).drop_last() =~= Seq::<nat>::empty());
    while i < options.len()
        invariant
            1 <= i <= options@.len(),
            best < i,
            best == first_min(sizes(options@.take(i as int))),
            least == options@[best as int].0@.len(),
        decreases options.len() - i,
    {
        let size = options[i].0.size();
        proof {
            let cur = sizes(options@.take(i + 1));
            assert(cur.drop_last() =~= sizes(options@.take(i as int)));
            assert(cur.last() == size);
            assert(cur[best as int] == least);
        }
        if size < least {
            best = i;
            least = size;
        }
        i += 1;
    }
    assert(options@.take(i as int) =~= options@);
    best
}

/// The digits of `flags`, the digits available at `pos`, whose placement
/// there leaves no direct problem.
fn refine_cell(sudoku: &Sudoku, flags: Flags, pos: (usize, usize)) -> (r: Flags)
    requires
        sudoku.wf(),
        sudoku@.inside(pos.0 as int, pos.1 as int),
        flags@ == sudoku@.available(pos.0 as int, pos.1 as int),
    ensures
        r@ == refined(sudoku@, pos.0 as int, pos.1 as int),
{
    let ghost g = sudoku@;
    let ghost x = pos.0 as int;
    let ghost y = pos.1 as int;
    let digits = flags.to_vec();
    let mut kept: Vec<u8> = Vec::new();
    let mut j: usize = 0;
    proof {
        flags.lemma_bounded();
        lemma_ascending(flags@, 32);
    }
    while j < digits.len()
        invariant
            sudoku.wf(),
            g == sudoku@,
            x == pos.0,
            y == pos.1,
            g.inside(x, y),
            flags@ == g.available(x, y),
            digits_of(digits@) == flags.digits(),
            j <= digits@.len(),
            forall|i: int|
                0 <= i < kept@.len() ==> flags@.contains((#[trigger] kept@[i]) as int) && !unsolvable(
                    g.put(x, y, kept@[i] as int),
                ),
            forall|i: int|
                0 <= i < j && !unsolvable(g.put(x, y, (#[trigger] digits@[i]) as int))
                    ==> digits_of(kept@).contains(digits@[i] as int),
        decreases digits.len() - j,
    {
        let digit = digits[j];
        proof {
            assert(digits_of(digits@)[j as int] == digit);
            lemma_ascending(flags@, 32);
            assert(flags@.contains(digit as int));
        }
        let probe = sudoku.clone().set(pos, digit);
        let ghost before = kept@;
        if !is_unsolvable(&probe) {
            kept.push(digit);
        }
        proof {
            assert forall|i: int|
                0 <= i < j + 1 && !unsolvable(
                    g.put(x, y, (#[trigger] digits@[i]) as int),
                ) implies digits_of(kept@).contains(digits@[i] as int) by {
                if i < j {
                    let e = digits@[i] as int;
                    let w = choose|w: int| 0 <= w < before.len() && digits_of(before)[w] == e;
                    assert(digits_of(kept@)[w] == e);
                } else {
                    assert(digits_of(kept@)[kept@.len() - 1] == digit);
                }
            }
        }
        j += 1;
    }
    let r = Flags::from_vec(kept);
    proof {
        assert forall|d: int| r@.contains(d) == refined(g, x, y).contains(d) by {
            if r@.contains(d) {
                let w = choose|w: int| 0 <= w < kept@.len() && digits_of(kept@)[w] == d;
                assert(kept@[w] as int == d);
            }
            if refined(g, x, y).contains(d) {
                lemma_ascending(flags@, 32);
                let w = choose|w: int| 0 <= w < flags.digits().len() && flags.digits()[w] == d;
                assert(digits_of(digits@)[w] == d);
                assert(digits@[w] as int == d);
            }
        }
        assert(r@ =~= refined(g, x, y));
    }
    r
}

/// The cells of `options`, each with its refined digits.
fn refine(sudoku: &Sudoku, options: &Vec<(Flags, (usize, usize))>) -> (r: Vec<
    (Flags, (usize, usize)),
>)
    requires
        sudoku.wf(),
        forall|i: int|
            0 <= i < options@.len() ==> (#[trigger] options@[i]).0@ == sudoku@.available(
                options@[i].1.0 as int,
                options@[i].1.1 as int,
            ) && sudoku@.inside(options@[i].1.0 as int, options@[i].1.1 as int),
    ensures
        positions(r@) == positions(options@),
        forall|i: int|
            0 <= i < r@.len() ==> (#[trigger] r@[i]).0@ == refined(
                sudoku@,
                r@[i].1.0 as int,
                r@[i].1.1 as int,
            ),
{
    let mut r: Vec<(Flags, (usize, usize))> = Vec::new();
    let mut i: usize = 0;
    while i < options.len()
        invariant
            sudoku.wf(),
            i <= options@.len(),
            r@.len() == i,
            forall|j: int|
                0 <= j < options@.len() ==> (#[trigger] options@[j]).0@ == sudoku@.available(
                    options@[j].1.0 as int,
                    options@[j].1.1 as int,
                ) && sudoku@.inside(options@[j].1.0 as int, options@[j].1.1 as int),
            forall|j: int| 0 <= j < i ==> (#[trigger] r@[j]).1 == options@[j].1,
            forall|j: int|
                0 <= j < i ==> (#[trigger] r@[j]).0@ == refined(
                    sudoku@,
                    r@[j].1.0 as int,
                    r@[j].1.1 as int,
                ),
        decreases options.len() - i,
    {
        let (flags, pos) = options[i];
        let f = refine_cell(sudoku, flags, pos);
        r.push((f, pos));
        i += 1;
    }
    assert(positions(r@) =~= positions(options@));
    r
}

/// The cell to branch on, with the digits to try there; `None` for a grid
/// without an empty cell.
pub fn get_best_options(sudoku: &Sudoku) -> (r: Option<(Flags, (usize, usize))>)
    requires
        sudoku.wf(),
    ensures
        match r {
            None => best_options(sudoku@) is None,
            Some((f, pos)) => best_options(sudoku@) == Some((f@, (pos.0 as int, pos.1 as int))),
        },
        r is None <==> sudoku@.full(),
        r matches Some((f, pos)) ==> sudoku@.inside(pos.0 as int, pos.1 as int) && sudoku@.at(
            pos.0 as int,
            pos.1 as int,
        ) == 0 && f@.subset_of(sudoku@.available(pos.0 as int, pos.1 as int)),
{
    let ghost g = sudoku@;
    proof {
        lemma_best_options(g);
    }
    let options = raw_options(sudoku);
    if options.len() == 0 {
        return None;
    }
    assert(sizes(options@) =~= raw_sizes(g));
    let m = fewest(&options);
    proof {
        lemma_first_min(raw_sizes(g));
        assert(positions(options@)[m as int] == empties(g)[m as int]);
    }
    if options[m].0.size() > 1 {
        let fine = refine(sudoku, &options);
        assert(sizes(fine@) =~= refined_sizes(g)) by {
            assert forall|i: int| 0 <= i < fine@.len() implies sizes(fine@)[i] == refined_sizes(
                g,
            )[i] by {
                assert(positions(fine@)[i] == empties(g)[i]);
            }
        }
        let q = fewest(&fine);
        proof {
            lemma_first_min(refined_sizes(g));
            assert(positions(fine@)[q as int] == empties(g)[q as int]);
        }
        Some(fine[q])
    } else {
        Some(options[m])
    }
}

/// The grid that a search result holds, if it holds one.
pub open spec fn found(r: Option<Sudoku>) -> Option<Board> {
    match r {
        Some(s) => Some(s@),
        None => None,
    }
}

/// The depth-first search below `solution`. Once `stopped` is set the search
/// ends without a result, and it sets `stopped` when it finds the request
/// withdrawn.
fn solve(sudoku: Sudoku, lock: &AbortLock, stopped: &mut bool) -> (r: Option<Sudoku>)
    requires
        sudoku.wf(),
    ensures
        *old(stopped) ==> *final(stopped),
        lock.is_set() ==> *final(stopped),
        lock.is_local() && !lock.is_set() && !*old(stopped) ==> !*final(stopped),
        *final(stopped) ==> r is None,
        !*final(stopped) ==> found(r) == first_solution(sudoku@),
        r matches Some(s) ==> s.wf(),
    decreases sudoku@.blanks(),
{
    if *stopped {
        return None;
    }
    if lock.is_aborted() {
        *stopped = true;
        return None;
    }
    let ghost g = sudoku@;
    match get_best_options(&sudoku) {
        None => {
            if sudoku.is_solved() {
                Some(sudoku)
            } else {
                None
            }
        },
        Some((flags, pos)) => {
            let digits = flags.to_vec();
            let mut i: usize = 0;
            while i < digits.len()
                invariant
                    sudoku.wf(),
                    g == sudoku@,
                    best_options(g) == Some((flags@, (pos.0 as int, pos.1 as int))),
                    digits_of(digits@) == digits_to_try(g),
                    i <= digits@.len(),
                    !*stopped,
                    !*old(stopped),
                    first_from(g, i as int) == first_solution(g),
                decreases digits.len() - i,
            {
                proof {
                    lemma_child(g, i as int);
                    assert(digits_of(digits@)[i as int] == digits@[i as int]);
                }
                let next = sudoku.clone().set(pos, digits[i]);
                assert(next@ == child(g, i as int));
                let r = solve(next, lock, stopped);
                if *stopped {
                    return None;
                }
                if r.is_some() {
                    return r;
                }
                i += 1;
            }
            None
        },
    }
}

/// The first solution of the grid that a depth-first search finds, which
/// branches on the cell that `get_best_options` picks and tries its digits
/// in ascending order; `None` if the grid has no solution, as a grid that
/// repeats a digit has none, or if the request was withdrawn through `lock`.
pub fn solution(sudoku: Sudoku, lock: &AbortLock) -> (r: Option<Sudoku>)
    requires
        sudoku.wf(),
    ensures
        lock.is_set() ==> r is None,
        lock.is_local() && !lock.is_set() ==> found(r) == first_solution(sudoku@),
        lock.is_local() && !lock.is_set() ==> (r is Some <==> sudoku@.solvable()),
        r matches Some(s) ==> s.wf() && first_solution(sudoku@) == Some(s@) && s@.solved()
            && s@.completes(sudoku@),
{
    let ghost g = sudoku@;
    let mut stopped = false;
    let r = solve(sudoku, lock, &mut stopped);
    proof {
        first_solution_is_sound(g);
    }
    r
}

/// All solutions of the grid in the order in which the search of `solution`
/// finds them, to be asked for one by one; none if the request was withdrawn
/// through `lock`, and none any more once it is.
pub fn solution_iter<'r>(sudoku: Sudoku, lock: &'r AbortLock) -> (r: SolutionIter<'r>)
    requires
        sudoku.wf(),
    ensures
        r.wf(),
        r.lock() == *lock,
        r.start() == sudoku@,
        lock.is_set() ==> r.rest().len() == 0,
        lock.is_local() && !lock.is_set() ==> r.rest() == solutions(sudoku@),
        r.rest().len() == 0 || r.rest() == solutions(sudoku@),
        r.rest().no_duplicates(),
        forall|s: Board| #[trigger] r.rest().contains(s) ==> s.solved() && s.completes(sudoku@),
        lock.is_local() && !lock.is_set() ==> forall|s: Board|
            s.solved() && s.completes(sudoku@) ==> #[trigger] r.rest().contains(s),
{
    proof {
        solutions_are_the_solved_completions(sudoku@);
    }
    SolutionIter::new(sudoku, lock)
}

/// The entry names an empty cell of the grid and counts its available digits.
pub open spec fn ranked_entry(g: Board, e: (usize, (usize, usize))) -> bool {
    &&& g.inside(e.1.0 as int, e.1.1 as int)
    &&& g.at(e.1.0 as int, e.1.1 as int) == 0
    &&& e.0 == g.available(e.1.0 as int, e.1.1 as int).len()
}

/// Entry `a` comes before entry `b`: it counts fewer digits, or as many and
/// its cell comes first in the row-by-row walk.
pub open spec fn before(g: Board, a: (usize, (usize, usize)), b: (usize, (usize, usize))) -> bool {
    a.0 < b.0 || (a.0 == b.0 && g.index(a.1.0 as int, a.1.1 as int) < g.index(
        b.1.0 as int,
        b.1.1 as int,
    ))
}

/// The empty cells of the grid, each with the number of its available
/// digits, by ascending number; cells with the same number stand in the
/// order of the row-by-row walk.
pub fn ranked(sudoku: &Sudoku) -> (r: Vec<(usize, (usize, usize))>)
    requires
        sudoku.wf(),
    ensures
        forall|i: int| 0 <= i < r@.len() ==> ranked_entry(sudoku@, #[trigger] r@[i]),
        forall|x: int, y: int|
            sudoku@.inside(x, y) && #[trigger] sudoku@.at(x, y) == 0 ==> exists|i: int|
                0 <= i < r@.len() && (#[trigger] r@[i]).1.0 == x && r@[i].1.1 == y,
        forall|i: int, j: int|
            0 <= i < j < r@.len() ==> before(sudoku@, #[trigger] r@[i], #[trigger] r@[j]),
{
    let ghost g = sudoku@;
    let options = raw_options(sudoku);
    let mut cells: Vec<(usize, (usize, usize))> = Vec::new();
    let mut k: usize = 0;
    while k < options.len()
        invariant
            k <= options@.len(),
            cells@.len() == k,
            forall|i: int|
                0 <= i < k ==> (#[trigger] cells@[i]).1 == options@[i].1 && cells@[i].0
                    == options@[i].0@.len(),
        decreases options.len() - k,
    {
        let (flags, pos) = options[k];
        cells.push((flags.size(), pos));
        k += 1;
    }
    let ghost listed = cells@;
    let r = sorted_by_count(cells);
    proof {
        lemma_empties(g);
        lemma_blank_cells(g, g.cells.len() as int);
        let from = choose|from: Seq<int>| stably_sorted(listed, r@, from);
        assert forall|i: int| 0 <= i < listed.len() implies ranked_entry(
            g,
            #[trigger] listed[i],
        ) && (listed[i].1.0 as int, listed[i].1.1 as int) == empties(g)[i] by {
            assert(positions(options@)[i] == empties(g)[i]);
        }
        assert forall|i: int| 0 <= i < r@.len() implies ranked_entry(g, #[trigger] r@[i]) by {
            assert(r@[i] == listed[from[i]]);
        }
        assert forall|x: int, y: int|
            g.inside(x, y) && #[trigger] g.at(x, y) == 0 implies exists|i: int|
            0 <= i < r@.len() && (#[trigger] r@[i]).1.0 == x && r@[i].1.1 == y by {
            let a = choose|a: int| 0 <= a < empties(g).len() && empties(g)[a] == (x, y);
            let e = listed[a];
            assert(listed.contains(e));
            vstd::seq_lib::to_multiset_contains(listed, e);
            vstd::seq_lib::to_multiset_contains(r@, e);
            let i = choose|i: int| 0 <= i < r@.len() && r@[i] == e;
            assert(r@[i].1.0 == x && r@[i].1.1 == y);
        }
        assert forall|i: int, j: int| 0 <= i < j < r@.len() implies before(
            g,
            #[trigger] r@[i],
            #[trigger] r@[j],
        ) by {
            assert(r@[i] == listed[from[i]]);
            assert(r@[j] == listed[from[j]]);
            if r@[i].0 == r@[j].0 {
                assert(from[i] < from[j]);
                let p = empties(g)[from[i]];
                let q = empties(g)[from[j]];
                assert(g.index(p.0, p.1) < g.index(q.0, q.1));
            }
        }
    }
    r
}

/// The search below `contradiction`. Once `stopped` is set the search ends
/// with `false`, and it sets `stopped` when it finds the request withdrawn.
fn refute(sudoku: &Sudoku, level: u8, lock: &AbortLock, stopped: &mut bool) -> (r: bool)
    requires
        sudoku.wf(),
    ensures
        *old(stopped) ==> *final(stopped),
        lock.is_set() ==> *final(stopped),
        lock.is_local() && !lock.is_set() && !*old(stopped) ==> !*final(stopped),
        *final(stopped) ==> !r,
        !*final(stopped) ==> r == refuted(sudoku@, level as nat),
    decreases level,
{
    if *stopped {
        return false;
    }
    if lock.is_aborted() {
        *stopped = true;
        return false;
    }
    if level == 0 {
        return false;
    }
    if level == 1 {
        return is_unsolvable(sudoku);
    }
    let ghost g = sudoku@;
    let order = ranked(sudoku);
    let mut c: usize = 0;
    while c < order.len()
        invariant
            sudoku.wf(),
            g == sudoku@,
            level >= 2,
            c <= order@.len(),
            !*stopped,
            !*old(stopped),
            !lock.is_set(),
            forall|i: int| 0 <= i < order@.len() ==> ranked_entry(g, #[trigger] order@[i]),
            forall|i: int|
                0 <= i < c ==> !dead_end(
                    g,
                    (#[trigger] order@[i]).1.0 as int,
                    order@[i].1.1 as int,
                    level as nat,
                ),
        decreases order.len() - c,
    {
        let pos = order[c].1;
        let ghost x = pos.0 as int;
        let ghost y = pos.1 as int;
        assert(ranked_entry(g, order@[c as int]));
        let flags = sudoku.available(pos);
        let digits = flags.to_vec();
        proof {
            flags.lemma_bounded();
            lemma_ascending(flags@, 32);
        }
        let mut all = true;
        let mut i: usize = 0;
        while all && i < digits.len()
            invariant
                sudoku.wf(),
                g == sudoku@,
                level >= 2,
                x == pos.0,
                y == pos.1,
                g.inside(x, y),
                flags@ == g.available(x, y),
                digits_of(digits@) == flags.digits(),
                i <= digits@.len(),
                !*stopped,
                !*old(stopped),
                !lock.is_set(),
                all ==> forall|j: int|
                    0 <= j < i ==> fails(
                        g.put(x, y, (#[trigger] digits@[j]) as int),
                        (level - 1) as nat,
                    ),
                !all ==> exists|d: int| #[trigger]
                    g.available(x, y).contains(d) && !fails(g.put(x, y, d), (level - 1) as nat),
            decreases digits.len() - i, all as int,
        {
            let digit = digits[i];
            proof {
                assert(digits_of(digits@)[i as int] == digit);
                lemma_ascending(flags@, 32);
                assert(flags@.contains(digit as int));
            }
            let next = sudoku.clone().set(pos, digit);
            let bad = is_unsolvable(&next) || refute(&next, level - 1, lock, stopped);
            if *stopped {
                return false;
            }
            if !bad {
                all = false;
            }
            i += 1;
        }
        if all {
            proof {
                assert forall|d: int| #[trigger] g.available(x, y).contains(d) implies fails(
                    g.put(x, y, d),
                    (level - 1) as nat,
                ) by {
                    let w = choose|w: int| 0 <= w < flags.digits().len() && flags.digits()[w] == d;
                    assert(digits_of(digits@)[w] == d);
                    assert(digits@[w] as int == d);
                }
                assert(dead_end(g, x, y, level as nat));
                lemma_refuted_unfold(g, level as nat);
            }
            return true;
        }
        c += 1;
    }
    proof {
        lemma_refuted_unfold(g, level as nat);
        assert forall|x: int, y: int| !dead_end(g, x, y, level as nat) by {
            if g.inside(x, y) && g.at(x, y) == 0 {
                let i = choose|i: int|
                    0 <= i < order@.len() && (#[trigger] order@[i]).1.0 == x && order@[i].1.1 == y;
                assert(!dead_end(g, order@[i].1.0 as int, order@[i].1.1 as int, level as nat));
            }
        }
    }
    false
}

/// Whether the grid can be shown to have no solution by trying digits up to
/// `level` deep. It never says so once the request was withdrawn through
/// `lock`.
pub fn contradiction(sudoku: &Sudoku, level: u8, lock: &AbortLock) -> (r: bool)
    requires
        sudoku.wf(),
    ensures
        r ==> refuted(sudoku@, level as nat),
        r ==> !sudoku@.solvable(),
        lock.is_set() ==> !r,
        lock.is_local() && !lock.is_set() ==> r == refuted(sudoku@, level as nat),
{
    let mut stopped = false;
    let r = refute(sudoku, level, lock, &mut stopped);
    proof {
        if r {
            refuted_is_sound(sudoku@, level as nat);
        }
    }
    r
}

/// The list holds, in ascending order, the digits that remain for its cell
/// at `level`.
pub open spec fn tracks(g: Board, option: (Vec<u8>, (usize, usize)), level: int) -> bool {
    digits_of(option.0@) == ascending(
        remaining(g, option.1.0 as int, option.1.1 as int, level),
        32,
    )
}

/// The lengths of the digit lists of a list of cells.
pub open spec fn lens(options: Seq<(Vec<u8>, (usize, usize))>) -> Seq<nat> {
    options.map_values(|e: (Vec<u8>, (usize, usize))| e.0@.len())
}

/// The cells of `order`, each with its available digits in ascending order.
fn tracked_cells(sudoku: &Sudoku, order: &Vec<(usize, (usize, usize))>) -> (r: Vec<
    (Vec<u8>, (usize, usize)),
>)
    requires
        sudoku.wf(),
        forall|i: int| 0 <= i < order@.len() ==> ranked_entry(sudoku@, #[trigger] order@[i]),
    ensures
        r@.len() == order@.len(),
        forall|i: int|
            0 <= i < r@.len() ==> (#[trigger] r@[i]).1 == order@[i].1 && tracks(sudoku@, r@[i], -1),
{
    let mut r: Vec<(Vec<u8>, (usize, usize))> = Vec::new();
    let mut i: usize = 0;
    while i < order.len()
        invariant
            sudoku.wf(),
            i <= order@.len(),
            r@.len() == i,
            forall|j: int| 0 <= j < order@.len() ==> ranked_entry(sudoku@, #[trigger] order@[j]),
            forall|j: int|
                0 <= j < i ==> (#[trigger] r@[j]).1 == order@[j].1 && tracks(sudoku@, r@[j], -1),
        decreases order.len() - i,
    {
        let pos = order[i].1;
        assert(ranked_entry(sudoku@, order@[i as int]));
        let digits = sudoku.available(pos).to_vec();
        proof {
            lemma_remaining(sudoku@, pos.0 as int, pos.1 as int, -1);
        }
        r.push((digits, pos));
        i += 1;
    }
    r
}

/// The digits of `digits` whose placement at `pos` is not refuted at
/// `level`.
fn prune(
    sudoku: &Sudoku,
    digits: &Vec<u8>,
    pos: (usize, usize),
    level: u8,
    lock: &AbortLock,
    stopped: &mut bool,
) -> (r: Vec<u8>)
    requires
        sudoku.wf(),
        sudoku@.inside(pos.0 as int, pos.1 as int),
        sudoku@.at(pos.0 as int, pos.1 as int) == 0,
        tracks(sudoku@, (*digits, pos), level - 1),
    ensures
        *old(stopped) ==> *final(stopped),
        lock.is_set() ==> *final(stopped) || digits@.len() == 0,
        lock.is_local() && !lock.is_set() && !*old(stopped) ==> !*final(stopped),
        !*final(stopped) ==> tracks(sudoku@, (r, pos), level as int),
{
    let ghost g = sudoku@;
    let ghost x = pos.0 as int;
    let ghost y = pos.1 as int;
    let ghost keep = |d: int| !refuted(g.put(x, y, d), level as nat);
    let ghost before = remaining(g, x, y, level - 1);
    let mut kept: Vec<u8> = Vec::new();
    let mut j: usize = 0;
    proof {
        lemma_remaining(g, x, y, level - 1);
        lemma_ascending(before, 32);
        reveal(Seq::filter);
        assert(digits_of(digits@.take(0)) =~= Seq::<int>::empty());
    }
    while j < digits.len()
        invariant
            sudoku.wf(),
            g == sudoku@,
            x == pos.0,
            y == pos.1,
            g.inside(x, y),
            before == remaining(g, x, y, level - 1),
            digits_of(digits@) == ascending(before, 32),
            keep == |d: int| !refuted(g.put(x, y, d), level as nat),
            j <= digits@.len(),
            *old(stopped) ==> *stopped,
            lock.is_set() ==> *stopped || j == 0,
            lock.is_local() && !lock.is_set() && !*old(stopped) ==> !*stopped,
            !*stopped ==> digits_of(kept@) == digits_of(digits@.take(j as int)).filter(keep),
        decreases digits.len() - j,
    {
        let digit = digits[j];
        proof {
            assert(digits_of(digits@)[j as int] == digit);
            lemma_ascending(before, 32);
            lemma_remaining(g, x, y, level - 1);
            assert(before.contains(digit as int));
        }
        let probe = sudoku.clone().set(pos, digit);
        let ghost old_kept = kept@;
        let bad = refute(&probe, level, lock, stopped);
        if !bad {
            kept.push(digit);
        }
        proof {
            if !*stopped {
                let init = digits_of(digits@.take(j as int));
                let more = digits_of(digits@.take(j + 1));
                reveal(Seq::filter);
                assert(more.drop_last() =~= init);
                assert(more.last() == digit as int);
                assert(bad == !keep(digit as int));
                if !bad {
                    assert(digits_of(kept@) =~= digits_of(old_kept).push(digit as int));
                }
            }
        }
        j += 1;
    }
    proof {
        if !*stopped {
            assert(digits@.take(j as int) =~= digits@);
            lemma_ascending_filter(before, 32, keep);
            let after = Set::new(|d: int| before.contains(d) && keep(d));
            assert forall|d: int| after.contains(d) == remaining(g, x, y, level as int).contains(
                d,
            ) by {
                if after.contains(d) {
                    assert forall|k: nat| k <= level implies !#[trigger] refuted(
                        g.put(x, y, d),
                        k,
                    ) by {
                        if k < level {
                        }
                    }
                }
                if remaining(g, x, y, level as int).contains(d) {
                    assert(!refuted(g.put(x, y, d), level as nat));
                }
            }
            assert(after =~= remaining(g, x, y, level as int));
        }
    }
    kept
}

/// The place of the first cell of `options` with the shortest digit list.
fn shortest(options: &Vec<(Vec<u8>, (usize, usize))>) -> (best: usize)
    requires
        options@.len() > 0,
    ensures
        best == first_min(lens(options@)),
        best < options@.len(),
{
    let mut best: usize = 0;
    let mut least: usize = options[0].0.len();
    let mut i: usize = 1;
    assert(lens(options@.take(1)).drop_last() =~= Seq::<nat>::empty());
    while i < options.len()
        invariant
            1 <= i <= options@.len(),
            best < i,
            best == first_min(lens(options@.take(i as int))),
            least == options@[best as int].0@.len(),
        decreases options.len() - i,
    {
        let size = options[i].0.len();
        proof {
            let cur = lens(options@.take(i + 1));
            assert(cur.drop_last() =~= lens(options@.take(i as int)));
            assert(cur.last() == size);
            assert(cur[best as int] == least);
        }
        if size < least {
            best = i;
            least = size;
        }
        i += 1;
    }
    assert(options@.take(i as int) =~= options@);
    best
}

/// A hint as mathematical integers: the digit, the column and row of its
/// cell, and the level.
pub open spec fn shown(r: Option<(u8, (usize, usize), u8)>) -> Option<(int, (int, int), int)> {
    match r {
        Some((d, pos, level)) => Some((d as int, (pos.0 as int, pos.1 as int), level as int)),
        None => None,
    }
}

/// The cell at place `m`, the first with the shortest list, is the pick of
/// the level that the lists stand for.
proof fn lemma_shortest_is_pick(
    g: Board,
    order: Seq<(usize, (usize, usize))>,
    options: Seq<(Vec<u8>, (usize, usize))>,
    level: int,
    m: int,
)
    requires
        g.valid(),
        forall|i: int| 0 <= i < order.len() ==> ranked_entry(g, #[trigger] order[i]),
        forall|x: int, y: int|
            g.inside(x, y) && #[trigger] g.at(x, y) == 0 ==> exists|i: int|
                0 <= i < order.len() && (#[trigger] order[i]).1.0 == x && order[i].1.1 == y,
        forall|i: int, j: int|
            0 <= i < j < order.len() ==> before(g, #[trigger] order[i], #[trigger] order[j]),
        options.len() == order.len(),
        forall|i: int|
            0 <= i < options.len() ==> (#[trigger] options[i]).1 == order[i].1 && tracks(
                g,
                options[i],
                level,
            ),
        0 <= m < options.len(),
        m == first_min(lens(options)),
    ensures
        is_pick(g, options[m].1.0 as int, options[m].1.1 as int, level),
        options[m].0@.len() == remaining(
            g,
            options[m].1.0 as int,
            options[m].1.1 as int,
            level,
        ).len(),
{
    let px = options[m].1.0 as int;
    let py = options[m].1.1 as int;
    lemma_first_min(lens(options));
    assert(ranked_entry(g, order[m]));
    lemma_remaining(g, px, py, level);
    assert(tracks(g, options[m], level));
    assert(digits_of(options[m].0@).len() == options[m].0@.len());
    assert forall|x2: int, y2: int| g.inside(x2, y2) && #[trigger] g.at(x2, y2) == 0 implies ranks_first(
        g,
        px,
        py,
        x2,
        y2,
        level,
    ) by {
        let j = choose|j: int|
            0 <= j < order.len() && (#[trigger] order[j]).1.0 == x2 && order[j].1.1 == y2;
        assert(ranked_entry(g, order[j]));
        lemma_remaining(g, x2, y2, level);
        assert(tracks(g, options[j], level));
        assert(digits_of(options[j].0@).len() == options[j].0@.len());
        assert(lens(options)[j] == remaining(g, x2, y2, level).len());
        assert(lens(options)[m] == remaining(g, px, py, level).len());
        assert(lens(options)[m] <= lens(options)[j]);
        if j < m {
            assert(lens(options)[m] < lens(options)[j]);
        } else if j > m {
            assert(before(g, order[m], order[j]));
        }
    }
}

/// A single forced move: the first level up to `max_level` at which some
/// empty cell keeps only one digit that is not refuted gives that digit, the
/// cell (column, row) and the level. `None` if no level gives one, if a cell
/// is left without a digit, if no cell is empty, or if the request was
/// withdrawn through `lock`.
pub fn hint(sudoku: Sudoku, max_level: u8, lock: &AbortLock) -> (r: Option<
    (u8, (usize, usize), u8),
>)
    requires
        sudoku.wf(),
    ensures
        lock.is_set() ==> r is None,
        lock.is_local() && !lock.is_set() ==> shown(r) == hint_of(sudoku@, max_level as int),
        r is Some ==> shown(r) == hint_of(sudoku@, max_level as int),
        r matches Some((d, pos, level)) ==> {
            let g = sudoku@;
            let (x, y) = (pos.0 as int, pos.1 as int);
            &&& level <= max_level
            &&& g.inside(x, y)
            &&& g.at(x, y) == 0
            &&& g.available(x, y).contains(d as int)
            &&& forall|c: int|
                g.available(x, y).contains(c) && c != d ==> refuted(
                    #[trigger] g.put(x, y, c),
                    level as nat,
                )
            &&& g.solvable() ==> g.put(x, y, d as int).solvable()
        },
{
    let ghost g = sudoku@;
    let order = ranked(&sudoku);
    let mut options = tracked_cells(&sudoku, &order);
    let mut stopped = false;
    let mut level: u8 = 0;
    loop
        invariant
            sudoku.wf(),
            g == sudoku@,
            level <= max_level,
            !stopped,
            forall|i: int| 0 <= i < order@.len() ==> ranked_entry(g, #[trigger] order@[i]),
            forall|x: int, y: int|
                g.inside(x, y) && #[trigger] g.at(x, y) == 0 ==> exists|i: int|
                    0 <= i < order@.len() && (#[trigger] order@[i]).1.0 == x && order@[i].1.1 == y,
            forall|i: int, j: int|
                0 <= i < j < order@.len() ==> before(g, #[trigger] order@[i], #[trigger] order@[j]),
            options@.len() == order@.len(),
            forall|i: int|
                0 <= i < options@.len() ==> (#[trigger] options@[i]).1 == order@[i].1 && tracks(
                    g,
                    options@[i],
                    level - 1,
                ),
            hint_from(g, level as int, max_level as int) == hint_of(g, max_level as int),
        decreases max_level - level,
    {
        if lock.is_aborted() {
            return None;
        }
        let mut next: Vec<(Vec<u8>, (usize, usize))> = Vec::new();
        let mut i: usize = 0;
        while i < options.len()
            invariant
                sudoku.wf(),
                g == sudoku@,
                !stopped,
                !lock.is_set(),
                i <= options@.len(),
                next@.len() == i,
                options@.len() == order@.len(),
                forall|j: int| 0 <= j < order@.len() ==> ranked_entry(g, #[trigger] order@[j]),
                forall|j: int|
                    0 <= j < options@.len() ==> (#[trigger] options@[j]).1 == order@[j].1 && tracks(
                        g,
                        options@[j],
                        level - 1,
                    ),
                forall|j: int|
                    0 <= j < i ==> (#[trigger] next@[j]).1 == order@[j].1 && tracks(
                        g,
                        next@[j],
                        level as int,
                    ),
            decreases options.len() - i,
        {
            let pos = options[i].1;
            assert(ranked_entry(g, order@[i as int]));
            assert(tracks(g, options@[i as int], level - 1));
            let kept = prune(&sudoku, &options[i].0, pos, level, lock, &mut stopped);
            if stopped {
                return None;
            }
            next.push((kept, pos));
            i += 1;
        }
        options = next;
        if options.len() == 0 {
            proof {
                assert forall|x: int, y: int| g.inside(x, y) implies #[trigger] g.at(x, y) != 0 by {
                    if g.at(x, y) == 0 {
                        let j = choose|j: int|
                            0 <= j < order@.len() && (#[trigger] order@[j]).1.0 == x
                                && order@[j].1.1 == y;
                    }
                }
                assert(g.full());
            }
            return None;
        }
        let m = shortest(&options);
        let pos = options[m].1;
        let count = options[m].0.len();
        proof {
            lemma_shortest_is_pick(g, order@, options@, level as int, m as int);
            let px = pos.0 as int;
            let py = pos.1 as int;
            assert(!g.full());
            let (cx, cy) = choose|x: int, y: int| is_pick(g, x, y, level as int);
            lemma_pick_unique(g, cx, cy, px, py, level as int);
            assert(digits_of(options@[m as int].0@).len() == count);
            if count == 1 {
                assert(digits_of(options@[m as int].0@)[0] == options@[m as int].0@[0]);
            }
        }
        if count == 0 {
            return None;
        }
        if count == 1 {
            let digit = options[m].0[0];
            proof {
                hint_is_valid(
                    g,
                    max_level as int,
                    digit as int,
                    pos.0 as int,
                    pos.1 as int,
                    level as int,
                );
            }
            return Some((digit, pos, level));
        }
        if level == max_level {
            return None;
        }
        level += 1;
    }
}

} // verus!
