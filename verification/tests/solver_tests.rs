use sudoku_solver::abort_lock::AbortLock;
use sudoku_solver::all_solutions::SolutionIter;
use sudoku_solver::solver::hint;
use sudoku_solver::solver::solution;
use sudoku_solver::solver::solution_iter;
use sudoku_solver::sudoku::Sudoku;

fn solve_by_hints(mut sudoku: Sudoku) -> Option<Sudoku> {
    while let Some((d, pos, _)) = hint(sudoku.clone(), 2, &AbortLock::prepare()) {
        sudoku = sudoku.set(pos, d)
    }
    if sudoku.is_solved() {
        Some(sudoku)
    } else {
        None
    }
}

fn collect_all(mut iter: SolutionIter) -> Vec<Sudoku> {
    let mut res = vec![];
    while let Some(i) = iter.next() {
        res.push(i);
    }
    res
}

#[test]
fn trivial_solution() {
    let data = "   3".to_string() + "3  2" + "2  1" + "1   ";
    let sudoku = Sudoku::load(data.as_str(), 2);
    let solution = solution(sudoku, &AbortLock::prepare());
    assert!(solution.is_some_and(|x| x.is_solved()));
}

#[test]
fn trivial_solution_by_hints() {
    let data = "   3".to_string() + "3  2" + "2  1" + "1   ";
    let sudoku = Sudoku::load(data.as_str(), 2);
    let solution = solve_by_hints(sudoku);
    assert!(solution.is_some_and(|x| x.is_solved()));
}

#[test]
fn minimal_solution() {
    let data = "".to_string()
        + "   " + "   " + " 1 "
        + "   " + "  2" + "  3"
        + "   " + "4  " + "   "

        + "   " + "   " + "5  "
        + "4 1" + "6  " + "   "
        + "  7" + "1  " + "   "

        + " 5 " + "   " + "2  "
        + "   " + " 8 " + " 4 "
        + " 3 " + "91 " + "   ";

    let sudoku = Sudoku::load(data.as_str(), 3);
    let solution = solution(sudoku, &AbortLock::prepare());
    assert!(solution.is_some_and(|x| x.is_solved()));
}

#[test]
fn minimal_all_solutions() {
    let data = "".to_string()
        + "   " + "   " + " 1 "
        + "   " + "  2" + "  3"
        + "   " + "4  " + "   "

        + "   " + "   " + "5  "
        + "4 1" + "6  " + "   "
        + "  7" + "1  " + "   "

        + " 5 " + "   " + "2  "
        + "   " + " 8 " + " 4 "
        + " 3 " + "91 " + "   ";

    let sudoku = Sudoku::load(data.as_str(), 3);
    let solutions = collect_all(solution_iter(sudoku, &AbortLock::prepare()));
    assert!(solutions.len() == 1);
    assert!(solutions[0].is_solved());
}

#[test]
fn another_hard_sudoku_solution() {
    let data = "".to_string()
        + "   " + "   " + "   "
        + " 9 " + " 1 " + " 3 "
        + "  6" + " 2 " + "7  "

        + "   " + "3 4" + "   "
        + "21 " + "   " + " 98"
        + "   " + "   " + "   "

        + "  2" + "5 6" + "4  "
        + " 8 " + "   " + " 1 "
        + "   " + "   " + "   ";

    let sudoku = Sudoku::load(data.as_str(), 3);
    let solution = solution(sudoku, &AbortLock::prepare());
    assert!(solution.is_some_and(|x| x.is_solved()));
}

#[test]
fn corrupted_sudoku_solution() {
    let data = "".to_string()
        + "9  " + "   " + "   "
        + " 9 " + " 1 " + " 3 "
        + "  6" + " 2 " + "7  "

        + "   " + "3 4" + "   "
        + "21 " + "   " + " 98"
        + "   " + "   " + "   "

        + "  2" + "5 6" + "4  "
        + " 8 " + "   " + " 1 "
        + "   " + "   " + "   ";

    let sudoku = Sudoku::load(data.as_str(), 3);
    let solution = solution(sudoku, &AbortLock::prepare());
    assert!(solution.is_none());
}

#[test]
fn hint_test() {
    let data = "".to_string()
        + "   " + "   " + "   "
        + "   " + "   " + "   "
        + "   " + "   " + "3  "

        + "   " + " 3 " + "   "
        + "   " + "   " + "   "
        + "   " + "   " + "   "

        + "  3" + "   " + "   "
        + "   " + "   " + "   "
        + "   " + "246" + "  8";

    let sudoku = Sudoku::load(data.as_str(), 3);
    assert_eq!(Some((3, (7, 8), 1)), hint(sudoku, 3, &AbortLock::prepare()));
}

#[test]
fn hardest_for_logic_sudoku_solution() {
    let data = "".to_string()
        + "8  " + "   " + "   "
        + "  3" + "6  " + "   "
        + " 7 " + "  9" + "2  "

        + " 5 " + "  7" + "   "
        + "   " + " 45" + "7  "
        + "   " + "1  " + " 3 "

        + "  1" + "   " + " 68"
        + "  8" + "5  " + " 1 "
        + " 9 " + "   " + "4  ";

    let sudoku = Sudoku::load(data.as_str(), 3);
    let solution = solution(sudoku, &AbortLock::prepare());
    assert!(solution.is_some_and(|x| x.is_solved()));
}

#[test]
fn hard_sudoku_solution() {
    let data = "".to_string()
        + "3  " + " 2 " + "   "
        + "  7" + "6  " + "  3"
        + "6  " + "9  " + "  4"

        + "2  " + "1  " + "6  "
        + "9  " + "8 3" + " 5 "
        + "  5" + "4  " + "7  "

        + " 8 " + "  9" + " 1 "
        + "   " + " 7 " + "2  "
        + " 4 " + "  6" + "3  ";

    let sudoku = Sudoku::load(data.as_str(), 3);
    let solution = solution(sudoku, &AbortLock::prepare());
    assert!(solution.is_some_and(|x| x.is_solved()));
}

#[test]
fn medium_sudoku_solution() {
    let data = "".to_string()
        + "  8" + "  3" + "461"
        + "2 6" + " 84" + "   "
        + "3  " + "  7" + " 9 "

        + " 3 " + "75 " + "68 "
        + " 87" + " 1 " + "   "
        + " 5 " + " 4 " + "13 "

        + "  9" + "27 " + "31 "
        + "   " + "   " + "   "
        + "763" + "4 1" + "8 2";

    let sudoku = Sudoku::load(data.as_str(), 3);
    let solution = solution(sudoku, &AbortLock::prepare());
    assert!(solution.is_some_and(|x| x.is_solved()));
}

#[test]
fn hard_for_brute_force_sudoku_solution() {
    let data = "".to_string()
        + "   " + "   " + "   "
        + "   " + "  3" + " 85"
        + "  1" + " 2 " + "   "

        + "   " + "5 7" + "   "
        + "  4" + "   " + "1  "
        + " 9 " + "   " + "   "

        + "5  " + "   " + " 73"
        + "  2" + " 1 " + "   "
        + "   " + " 4 " + "  9";

    let sudoku = Sudoku::load(data.as_str(), 3);
    let solution = solution(sudoku, &AbortLock::prepare());
    assert!(solution.is_some_and(|x| x.is_solved()));
}

#[test]
fn hard_for_brute_force_sudoku_all_solutions() {
    let data = "".to_string()
        + "   " + "   " + "   "
        + "   " + "  3" + " 85"
        + "  1" + " 2 " + "   "

        + "   " + "5 7" + "   "
        + "  4" + "   " + "1  "
        + " 9 " + "   " + "   "

        + "5  " + "   " + " 73"
        + "  2" + " 1 " + "   "
        + "   " + " 4 " + "  9";

    let sudoku = Sudoku::load(data.as_str(), 3);
    let solutions = collect_all(solution_iter(sudoku, &AbortLock::prepare()));
    assert!(solutions.len() == 1);
    assert!(solutions[0].is_solved());
}
