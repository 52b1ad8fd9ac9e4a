use std::sync::atomic::AtomicBool;
use std::sync::atomic::Ordering;
use std::sync::Arc;
use sudoku_solver::abort_lock::AbortLock;
use sudoku_solver::all_solutions::SolutionIter;
use sudoku_solver::flags::Flags;
use sudoku_solver::matching::has_perfect_matching;
use sudoku_solver::solver::contradiction;
use sudoku_solver::solver::get_best_options;
use sudoku_solver::solver::hint;
use sudoku_solver::solver::is_unsolvable;
use sudoku_solver::solver::ranked;
use sudoku_solver::solver::solution;
use sudoku_solver::solver::solution_iter;
use sudoku_solver::sudoku::Sudoku;

fn grid(rows: &[&str], box_size: usize) -> Sudoku {
    let data: String = rows.concat();
    Sudoku::load(data.as_str(), box_size)
}

fn drain(mut iter: SolutionIter) -> Vec<Sudoku> {
    let mut found = vec![];
    while let Some(s) = iter.next() {
        found.push(s);
    }
    found
}

fn flags(digits: &[u8]) -> Flags {
    Flags::from_vec(digits.to_vec())
}

fn trivial() -> Sudoku {
    grid(&["   3", "3  2", "2  1", "1   "], 2)
}

fn two_solutions() -> Sudoku {
    grid(&["  3 ", "3  2", " 1  ", "    "], 2)
}

fn raised() -> AbortLock {
    let mut lock = AbortLock::prepare();
    lock.abort();
    lock
}

#[test]
fn trivial_solution_is_the_unique_grid() {
    let found = solution(trivial(), &AbortLock::prepare());
    assert_eq!(found, Some(grid(&["4213", "3142", "2431", "1324"], 2)));
}

#[test]
fn solution_keeps_the_given_digits() {
    let start = trivial();
    let found = solution(start.clone(), &AbortLock::prepare()).unwrap();
    for (d, pos) in start.iter() {
        if d != 0 {
            assert_eq!(found.get(pos), d);
        }
    }
}

#[test]
fn hints_lead_to_the_solution() {
    let mut sudoku = trivial();
    let mut levels = vec![];
    while let Some((d, pos, level)) = hint(sudoku.clone(), 2, &AbortLock::prepare()) {
        levels.push(level);
        sudoku = sudoku.set(pos, d);
    }
    assert_eq!(Some(sudoku), solution(trivial(), &AbortLock::prepare()));
    assert_eq!(levels, vec![0; 10]);
}

#[test]
fn first_hint_of_trivial_grid() {
    assert_eq!(hint(trivial(), 2, &AbortLock::prepare()), Some((4, (0, 0), 0)));
}

#[test]
fn all_solutions_in_search_order() {
    let found = drain(solution_iter(two_solutions(), &AbortLock::prepare()));
    assert_eq!(
        found,
        vec![
            grid(&["1234", "3412", "2143", "4321"], 2),
            grid(&["1234", "3412", "4123", "2341"], 2),
        ]
    );
    assert!(found.iter().all(|s| s.is_solved()));
}

#[test]
fn solution_is_the_first_of_all_solutions() {
    let lock = AbortLock::prepare();
    let first = solution(two_solutions(), &lock);
    let mut iter = solution_iter(two_solutions(), &lock);
    assert_eq!(first, iter.next());
}

#[test]
fn iterator_stays_empty_after_the_last_solution() {
    let lock = AbortLock::prepare();
    let mut iter = solution_iter(trivial(), &lock);
    assert!(iter.next().is_some());
    assert!(iter.next().is_none());
    assert!(iter.next().is_none());
}

#[test]
fn empty_small_grid_has_288_solutions() {
    let found = drain(solution_iter(grid(&[], 2), &AbortLock::prepare()));
    assert_eq!(found.len(), 288);
    assert!(found.iter().all(|s| s.is_solved()));
    for i in 0..found.len() {
        for j in 0..i {
            assert_ne!(found[i], found[j]);
        }
    }
}

#[test]
fn twelve_completions_of_a_filled_box() {
    let found = drain(solution_iter(grid(&["12  ", "34  "], 2), &AbortLock::prepare()));
    assert_eq!(found.len(), 12);
    assert_eq!(found[0], grid(&["1234", "3412", "2143", "4321"], 2));
    assert_eq!(found[11], grid(&["1243", "3421", "4312", "2134"], 2));
}

#[test]
fn solved_grid_is_its_own_solution() {
    let full = grid(&["4213", "3142", "2431", "1324"], 2);
    assert!(full.is_solved());
    assert!(get_best_options(&full).is_none());
    assert_eq!(solution(full.clone(), &AbortLock::prepare()), Some(full.clone()));
    assert_eq!(drain(solution_iter(full.clone(), &AbortLock::prepare())), vec![full.clone()]);
    assert_eq!(hint(full, 3, &AbortLock::prepare()), None);
}

#[test]
fn grid_of_box_size_zero_is_solved() {
    let none = grid(&[], 0);
    assert!(none.is_solved());
    assert!(!is_unsolvable(&none));
    assert_eq!(solution(none.clone(), &AbortLock::prepare()), Some(none));
}

#[test]
fn stuck_cell_is_a_direct_problem() {
    let stuck = grid(&["123 ", "   4"], 2);
    assert!(stuck.available((3, 0)).to_vec().is_empty());
    assert!(is_unsolvable(&stuck));
    assert_eq!(solution(stuck.clone(), &AbortLock::prepare()), None);
    assert!(drain(solution_iter(stuck.clone(), &AbortLock::prepare())).is_empty());
    assert_eq!(hint(stuck, 2, &AbortLock::prepare()), None);
}

#[test]
fn two_cells_for_one_digit_are_a_direct_problem() {
    let jammed = grid(&["34  ", "  2 "], 2);
    assert_eq!(jammed.available((2, 0)).to_vec(), vec![1]);
    assert_eq!(jammed.available((3, 0)).to_vec(), vec![1]);
    assert!(is_unsolvable(&jammed));
    assert_eq!(solution(jammed, &AbortLock::prepare()), None);
}

#[test]
fn repeated_digit_is_a_direct_problem() {
    let repeated = grid(&["1  1"], 2);
    assert!(is_unsolvable(&repeated));
    assert_eq!(solution(repeated, &AbortLock::prepare()), None);
}

#[test]
fn open_grid_shows_no_direct_problem() {
    assert!(!is_unsolvable(&trivial()));
    assert!(!is_unsolvable(&grid(&[], 3)));
}

#[test]
fn branch_on_forced_cell() {
    let (f, pos) = get_best_options(&trivial()).unwrap();
    assert_eq!((f.to_vec(), pos), (vec![4], (0, 0)));
    let (f, pos) = get_best_options(&two_solutions()).unwrap();
    assert_eq!((f.to_vec(), pos), (vec![4], (1, 1)));
}

#[test]
fn branch_on_refined_cell() {
    let (f, pos) = get_best_options(&grid(&["12  ", "34  "], 2)).unwrap();
    assert_eq!((f.to_vec(), pos), (vec![3, 4], (2, 0)));
}

#[test]
fn branch_on_dead_end() {
    let (f, pos) = get_best_options(&grid(&["123 ", "   4"], 2)).unwrap();
    assert_eq!((f.to_vec(), pos), (vec![], (3, 0)));
}

#[test]
fn cells_ranked_by_count_then_by_walk() {
    assert_eq!(
        ranked(&trivial()),
        vec![
            (1, (0, 0)),
            (1, (3, 3)),
            (2, (2, 0)),
            (2, (1, 1)),
            (2, (2, 1)),
            (2, (1, 2)),
            (2, (2, 2)),
            (2, (1, 3)),
            (3, (1, 0)),
            (3, (2, 3)),
        ]
    );
}

#[test]
fn contradiction_by_level() {
    let lock = AbortLock::prepare();
    let deep = grid(&["  3 ", " 3 2", "   1", "4 2 "], 2);
    assert!(!is_unsolvable(&deep));
    assert!(!contradiction(&deep, 0, &lock));
    assert!(!contradiction(&deep, 1, &lock));
    assert!(contradiction(&deep, 2, &lock));
    assert!(contradiction(&deep, 3, &lock));
    assert_eq!(solution(deep, &lock), None);
}

#[test]
fn contradiction_at_level_one_is_the_direct_check() {
    let lock = AbortLock::prepare();
    let stuck = grid(&["123 ", "   4"], 2);
    assert!(!contradiction(&stuck, 0, &lock));
    assert!(contradiction(&stuck, 1, &lock));
    assert!(!contradiction(&trivial(), 1, &lock));
    assert!(!contradiction(&trivial(), 3, &lock));
}

#[test]
fn hint_at_level_one() {
    let lock = AbortLock::prepare();
    let start = grid(&[" 23 ", "    ", "    ", "  2 "], 2);
    assert_eq!(hint(start.clone(), 0, &lock), None);
    assert_eq!(hint(start.clone(), 3, &lock), Some((2, (3, 1), 1)));
    assert_eq!(start.available((3, 1)).to_vec(), vec![1, 2, 4]);
    assert!(contradiction(&start.clone().set((3, 1), 1), 1, &lock));
    assert!(contradiction(&start.clone().set((3, 1), 4), 1, &lock));
    assert!(!contradiction(&start.clone().set((3, 1), 2), 1, &lock));
    assert!(solution(start.clone(), &lock).is_some());
    assert!(solution(start.set((3, 1), 2), &lock).is_some());
}

#[test]
fn no_hint_when_nothing_is_forced() {
    assert_eq!(hint(grid(&["12  ", "34  "], 2), 3, &AbortLock::prepare()), None);
}

#[test]
fn grid_that_fills_up_with_a_repeat_has_no_solution() {
    let lock = AbortLock::prepare();
    let start = grid(&["1234", "3412", "2143", "433 "], 2);
    assert_eq!(start.available((3, 3)).to_vec(), vec![1]);
    assert_eq!(solution(start.clone(), &lock), None);
    assert!(drain(solution_iter(start, &lock)).is_empty());
    let other = grid(&[" 213", "3142", "2431", "1321"], 2);
    assert_eq!(other.available((0, 0)).to_vec(), vec![4]);
    assert_eq!(solution(other.clone(), &lock), None);
    assert!(drain(solution_iter(other, &lock)).is_empty());
}

#[test]
fn full_grid_with_a_repeat_has_no_solution() {
    let lock = AbortLock::prepare();
    let full = grid(&["4213", "3142", "2431", "1321"], 2);
    assert!(!full.is_solved());
    assert!(get_best_options(&full).is_none());
    assert_eq!(solution(full.clone(), &lock), None);
    let mut iter = solution_iter(full, &lock);
    assert_eq!(iter.next(), None);
    assert_eq!(iter.next(), None);
    let all_ones = grid(&["1111", "1111", "1111", "1111"], 2);
    assert_eq!(solution(all_ones.clone(), &lock), None);
    assert!(drain(solution_iter(all_ones, &lock)).is_empty());
}

#[test]
fn repeat_among_the_givens_leaves_no_solution() {
    let lock = AbortLock::prepare();
    let start = grid(&["11  ", "    ", "    ", "    "], 2);
    assert_eq!(solution(start.clone(), &lock), None);
    assert!(drain(solution_iter(start, &lock)).is_empty());
}

#[test]
fn raised_token_gives_no_answer() {
    let lock = raised();
    assert!(lock.is_aborted());
    assert_eq!(solution(trivial(), &lock), None);
    assert_eq!(solution(grid(&["4213", "3142", "2431", "1324"], 2), &lock), None);
    assert!(drain(solution_iter(trivial(), &lock)).is_empty());
    assert_eq!(hint(trivial(), 2, &lock), None);
    assert!(!contradiction(&grid(&["123 ", "   4"], 2), 1, &lock));
    assert!(!contradiction(&grid(&["  3 ", " 3 2", "   1", "4 2 "], 2), 2, &lock));
}

#[test]
fn shared_flag_gives_no_answer() {
    let flag = Arc::new(AtomicBool::new(false));
    let lock = AbortLock::watching(flag.clone());
    assert!(!lock.is_aborted());
    assert!(solution(trivial(), &lock).is_some());
    flag.store(true, Ordering::SeqCst);
    assert!(lock.is_aborted());
    assert_eq!(solution(trivial(), &lock), None);
    assert!(drain(solution_iter(trivial(), &lock)).is_empty());
    assert_eq!(hint(trivial(), 2, &lock), None);
    assert!(!contradiction(&grid(&["123 ", "   4"], 2), 1, &lock));
}

#[test]
fn abort_sets_the_shared_flag() {
    let flag = Arc::new(AtomicBool::new(false));
    let mut lock = AbortLock::watching(flag.clone());
    lock.abort();
    assert!(flag.load(Ordering::SeqCst));
    assert!(lock.is_aborted());
}

#[test]
fn withdrawing_between_two_solutions_ends_the_sequence() {
    let flag = Arc::new(AtomicBool::new(false));
    let lock = AbortLock::watching(flag.clone());
    let mut iter = solution_iter(two_solutions(), &lock);
    assert_eq!(iter.next(), Some(grid(&["1234", "3412", "2143", "4321"], 2)));
    flag.store(true, Ordering::SeqCst);
    assert_eq!(iter.next(), None);
    flag.store(false, Ordering::SeqCst);
    assert_eq!(iter.next(), None);
}

#[test]
fn fresh_token_is_not_aborted() {
    assert!(!AbortLock::prepare().is_aborted());
}

#[test]
fn matching_exists_for_distinct_choices() {
    assert!(has_perfect_matching(vec![]));
    assert!(has_perfect_matching(vec![flags(&[1, 2]), flags(&[1])]));
    assert!(has_perfect_matching(vec![flags(&[1, 2]), flags(&[2, 3]), flags(&[1, 3])]));
    assert!(has_perfect_matching(vec![
        flags(&[1, 2, 3]),
        flags(&[1]),
        flags(&[1, 2]),
        flags(&[4, 1]),
    ]));
}

#[test]
fn matching_fails_for_crowded_sets() {
    assert!(!has_perfect_matching(vec![flags(&[])]));
    assert!(!has_perfect_matching(vec![flags(&[1]), flags(&[1])]));
    assert!(!has_perfect_matching(vec![flags(&[1, 2]), flags(&[1, 2]), flags(&[1, 2])]));
    assert!(!has_perfect_matching(vec![
        flags(&[1, 2]),
        flags(&[3, 4]),
        flags(&[1, 2]),
        flags(&[2, 1]),
    ]));
}

#[test]
fn matching_needs_as_many_digits_as_sets() {
    let all: Vec<u8> = (1..=32).collect();
    let mut sets = vec![];
    for _ in 0..32 {
        sets.push(flags(&all));
    }
    assert!(has_perfect_matching(sets.clone()));
    sets.push(flags(&all));
    assert!(!has_perfect_matching(sets));
}

#[test]
fn unique_grid_has_one_solution_equal_to_the_first() {
    let data = "".to_string()
        + "  8" + "  3" + "461"
        + "2 6" + " 84" + "   "
        + "3  " + "  7" + " 9 "
        + " 3 " + "75 " + "68 "
        + " 87" + " 1 " + "   "
        + " 5 " + " 4 " + "13 "
        + "  9" + "27 " + "31 "
        + "   " + "   " + "   "
        + "763" + "4 1" + "8 2";
    let lock = AbortLock::prepare();
    let start = Sudoku::load(data.as_str(), 3);
    let all = drain(solution_iter(start.clone(), &lock));
    assert_eq!(all.len(), 1);
    assert_eq!(Some(all[0].clone()), solution(start.clone(), &lock));
    for (d, pos) in start.iter() {
        if d != 0 {
            assert_eq!(all[0].get(pos), d);
        }
    }
}

#[test]
fn large_grid_branches_on_its_first_cell() {
    let start = Sudoku::load("", 4);
    assert!(!is_unsolvable(&start));
    let (f, pos) = get_best_options(&start).unwrap();
    assert_eq!(pos, (0, 0));
    assert_eq!(f.to_vec(), (1..=16).collect::<Vec<u8>>());
}

#[test]
fn large_grid_with_one_gap() {
    let rows = [
        "123456789ABCDEFG", "56781234DEFG9ABC", "9ABCDEFG12345678", "DEFG9ABC56781234",
        "21436587A9CBEDGF", "65872143EDGFA9CB", "A9CBEDGF21436587", "EDGFA9CB65872143",
        "34127856BCDAFG9E", "78563412FG9EBCDA", "BCDAFG9E34127856", "FG9EBCDA78563412",
        "43218765CBA9GFED", "87654321GFEDCBA9", "CBA9GFED43218765", "GFEDCBA98765432 ",
    ];
    let start = grid(&rows, 4);
    assert!(!start.is_solved());
    assert_eq!(hint(start.clone(), 0, &AbortLock::prepare()), Some((1, (15, 15), 0)));
    let found = solution(start, &AbortLock::prepare()).unwrap();
    assert!(found.is_solved());
    assert_eq!(found.get((15, 15)), 1);
}

#[test]
fn first_of_many_solutions_comes_without_the_rest() {
    let lock = AbortLock::prepare();
    let mut iter = solution_iter(Sudoku::load("", 3), &lock);
    let first = iter.next().unwrap();
    assert!(first.is_solved());
    let second = iter.next().unwrap();
    assert!(second.is_solved());
    assert_ne!(first, second);
}
