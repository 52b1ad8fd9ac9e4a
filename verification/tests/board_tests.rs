use std::cmp::Ordering;
use sudoku_solver::flags::Flags;
use sudoku_solver::order::by_count;
use sudoku_solver::sudoku::House;
use sudoku_solver::sudoku::Sudoku;

fn views(sets: Vec<Flags>) -> Vec<Vec<u8>> {
    sets.into_iter().map(|f| f.to_vec()).collect()
}

#[test]
fn flags_hold_digits_in_ascending_order() {
    let f = Flags::from_vec(vec![7, 3, 32, 3, 1]);
    assert_eq!(f.to_vec(), vec![1, 3, 7, 32]);
    assert_eq!(f.size(), 4);
    assert!(f.contains(7));
    assert!(!f.contains(2));
    assert!(!f.is_empty());
}

#[test]
fn flags_leave_out_digits_out_of_range() {
    let f = Flags::from_vec(vec![0, 33, 255, 5]);
    assert_eq!(f.to_vec(), vec![5]);
    assert_eq!(Flags::empty().with(0).size(), 0);
    assert_eq!(Flags::empty().with(40).size(), 0);
    assert!(!f.contains(0));
}

#[test]
fn empty_flags() {
    let f = Flags::empty();
    assert!(f.is_empty());
    assert_eq!(f.size(), 0);
    assert_eq!(f.to_vec(), Vec::<u8>::new());
}

#[test]
fn flags_inverse_within_board_size() {
    let f = Flags::from_vec(vec![2, 4, 9]);
    assert_eq!(f.inverse(9).to_vec(), vec![1, 3, 5, 6, 7, 8]);
    assert_eq!(f.inverse(4).to_vec(), vec![1, 3]);
    assert_eq!(f.inverse(0).to_vec(), Vec::<u8>::new());
    assert_eq!(Flags::empty().inverse(32).size(), 32);
    assert_eq!(Flags::empty().inverse(200).size(), 32);
    assert_eq!(Flags::empty().inverse(32).inverse(32).size(), 0);
}

#[test]
fn flags_union_and_with() {
    let a = Flags::from_vec(vec![1, 2]);
    let b = Flags::from_vec(vec![2, 3]);
    assert_eq!(a.union(&b).to_vec(), vec![1, 2, 3]);
    assert_eq!(a.with(9).to_vec(), vec![1, 2, 9]);
    assert_eq!(a.with(2).to_vec(), vec![1, 2]);
}

#[test]
fn load_reads_rows_left_to_right() {
    let s = Sudoku::load("   33  22  11   ", 2);
    assert_eq!(s.box_size(), 2);
    assert_eq!(s.board_size(), 4);
    assert_eq!(s.cell_count(), 16);
    assert_eq!(s.get((3, 0)), 3);
    assert_eq!(s.get((0, 1)), 3);
    assert_eq!(s.get((3, 1)), 2);
    assert_eq!(s.get((0, 3)), 1);
    assert_eq!(s.get((1, 1)), 0);
}

#[test]
fn load_takes_zero_and_other_characters_as_empty() {
    let s = Sudoku::load("0.x5-1", 2);
    assert_eq!(s.iter()[0], (0, (0, 0)));
    assert_eq!(s.iter()[1], (0, (1, 0)));
    assert_eq!(s.iter()[2], (0, (2, 0)));
    assert_eq!(s.iter()[3], (0, (3, 0)));
    assert_eq!(s.iter()[4], (0, (0, 1)));
    assert_eq!(s.iter()[5], (1, (1, 1)));
    assert_eq!(s.iter()[15], (0, (3, 3)));
    assert_eq!(s.iter().len(), 16);
}

#[test]
fn load_reads_letters_as_digits_from_ten() {
    let s = Sudoku::load("9AaGgH", 4);
    assert_eq!(s.board_size(), 16);
    assert_eq!(s.get((0, 0)), 9);
    assert_eq!(s.get((1, 0)), 10);
    assert_eq!(s.get((2, 0)), 10);
    assert_eq!(s.get((3, 0)), 16);
    assert_eq!(s.get((4, 0)), 16);
    assert_eq!(s.get((5, 0)), 0);
    let t = Sudoku::load("Pp", 5);
    assert_eq!(t.board_size(), 25);
    assert_eq!(t.get((0, 0)), 25);
    assert_eq!(t.get((1, 0)), 25);
}

#[test]
fn load_leaves_out_what_is_beyond_the_grid() {
    let s = Sudoku::load("12341234123412341234", 2);
    assert_eq!(s.cell_count(), 16);
    assert_eq!(s, Sudoku::load("1234123412341234", 2));
}

#[test]
fn set_writes_one_cell() {
    let s = Sudoku::load("", 2).set((2, 1), 4);
    assert_eq!(s.get((2, 1)), 4);
    assert_eq!(s, Sudoku::load("      4", 2));
    assert_eq!(s.clone().set((2, 1), 0), Sudoku::load("", 2));
}

#[test]
fn used_and_available_digits() {
    let s = Sudoku::load("   33  22  11   ", 2);
    assert_eq!(s.used((0, 0)).to_vec(), vec![1, 2, 3]);
    assert_eq!(s.available((0, 0)).to_vec(), vec![4]);
    assert_eq!(s.used((1, 0)).to_vec(), vec![3]);
    assert_eq!(s.available((1, 0)).to_vec(), vec![1, 2, 4]);
    assert_eq!(s.options((3, 0)).to_vec(), vec![3]);
    assert_eq!(s.options((1, 0)).to_vec(), vec![1, 2, 4]);
}

#[test]
fn cells_of_a_house() {
    let s = Sudoku::load("", 3);
    assert_eq!(s.cell(House::Row(4), 7), (7, 4));
    assert_eq!(s.cell(House::Column(4), 7), (4, 7));
    assert_eq!(s.cell(House::Block(1, 2), 0), (3, 6));
    assert_eq!(s.cell(House::Block(1, 2), 5), (5, 7));
    assert_eq!(s.cell(House::Block(1, 2), 8), (5, 8));
}

#[test]
fn digits_and_options_of_houses() {
    let s = Sudoku::load("   33  22  11   ", 2);
    assert_eq!(s.house_digits(House::Row(1)).to_vec(), vec![2, 3]);
    assert_eq!(s.house_digits(House::Column(0)).to_vec(), vec![1, 2, 3]);
    assert_eq!(s.house_digits(House::Block(1, 0)).to_vec(), vec![2, 3]);
    assert_eq!(views(s.iter_row_avail(0)), vec![vec![4], vec![1, 2, 4], vec![1, 4], vec![3]]);
    assert_eq!(views(s.iter_column_avail(3)), vec![vec![3], vec![2], vec![1], vec![4]]);
    assert_eq!(
        views(s.iter_box_avail((0, 1))),
        vec![vec![2], vec![3, 4], vec![1], vec![3, 4]]
    );
}

#[test]
fn solved_grid_is_recognised() {
    assert!(Sudoku::load("4213314224311324", 2).is_solved());
    assert!(!Sudoku::load("421331422431132 ", 2).is_solved());
    assert!(!Sudoku::load("4213314224311323", 2).is_solved());
    assert!(!Sudoku::load("1234123412341234", 2).is_solved());
    assert!(!Sudoku::load("1234341221434312", 2).is_solved());
    assert!(Sudoku::load("1", 1).is_solved());
    assert!(!Sudoku::load(" ", 1).is_solved());
}

#[test]
fn house_without_repeat() {
    let s = Sudoku::load("1 1 2   ", 2);
    assert!(!s.house_clear(House::Row(0)));
    assert!(s.house_clear(House::Row(1)));
    assert!(s.house_clear(House::Column(0)));
    assert!(s.house_clear(House::Block(0, 0)));
    assert!(s.house_clear(House::Block(1, 1)));
}

#[test]
fn entries_are_ordered_by_count_alone() {
    assert_eq!(by_count(&(1, (5, 5)), &(2, (0, 0))), Ordering::Less);
    assert_eq!(by_count(&(2, (5, 5)), &(2, (0, 0))), Ordering::Equal);
    assert_eq!(by_count(&(3, (0, 0)), &(2, (5, 5))), Ordering::Greater);
}
