use crate::board::Board;
use crate::board::MAX_BOX_SIZE;
use crate::board::Unit;
use crate::board::lemma_consistent_by_units;
use crate::board::lemma_index_bound;
use crate::board::lemma_join;
use crate::board::lemma_side_bound;
use crate::board::lemma_split;
use crate::board::unit_clear;
use crate::flags::Flags;
use vstd::prelude::*;

verus! {

/// The candidate sets of a list of flags.
pub open spec fn flag_views(flags: Seq<Flags>) -> Seq<Set<int>> {
    flags.map_values(|f: Flags| f@)
}

/// A row, a column or a box of a grid, named by its number: a box by its box
/// column and box row.
#[derive(Clone, Copy, Debug)]
pub enum House {
    Row(usize),
    Column(usize),
    Block(usize, usize),
}

impl View for House {
    type V = Unit;

    open spec fn view(&self) -> Unit {
        match self {
            House::Row(y) => Unit::Row(*y as int),
            House::Column(x) => Unit::Column(*x as int),
            House::Block(bx, by) => Unit::Block(*bx as int, *by as int),
        }
    }
}

/// The digit that a character stands for: `1` to `9` for themselves, the
/// letters, capital or small, for `10` onwards, and `0` for any other
/// character.
pub open spec fn char_value(c: char) -> int {
    let v = c as int;
    if 49 <= v <= 57 {
        v - 48
    } else if 65 <= v <= 90 {
        v - 55
    } else if 97 <= v <= 122 {
        v - 87
    } else {
        0
    }
}

/// What a cell written as `c` holds in a grid of `side` cells a side: the
/// digit of `c`, or nothing if the grid has no such digit.
pub open spec fn char_cell(c: char, side: int) -> u8 {
    if char_value(c) <= side {
        char_value(c) as u8
    } else {
        0
    }
}

/// The grid of box size `box_size` that `data` writes down row by row, one
/// character a cell. Cells for which `data` is too short are empty, and
/// characters beyond the last cell are left out.
pub open spec fn parsed(data: Seq<char>, box_size: nat) -> Board {
    let side = box_size * box_size;
    Board {
        box_size,
        cells: Seq::new(
            (side * side) as nat,
            |k: int|
                if k < data.len() {
                    char_cell(data[k], side as int)
                } else {
                    0u8
                },
        ),
    }
}

/// The digit that `c` stands for in a grid of `side` cells a side.
fn cell_of_char(c: char, side: usize) -> (d: u8)
    requires
        side <= 25,
    ensures
        d == char_cell(c, side as int),
        d <= side,
{
    let v = c as u32;
    let value: u32 = if 49 <= v && v <= 57 {
        v - 48
    } else if 65 <= v && v <= 90 {
        v - 55
    } else if 97 <= v && v <= 122 {
        v - 87
    } else {
        0
    };
    if value <= side as u32 {
        value as u8
    } else {
        0
    }
}

/// A grid of `box_size * box_size` cells a side, each empty (`0`) or holding
/// a digit.
#[derive(Debug, PartialEq, Eq)]
pub struct Sudoku {
    box_size: usize,
    cells: Vec<u8>,
}

impl View for Sudoku {
    type V = Board;

    closed spec fn view(&self) -> Board {
        Board { box_size: self.box_size as nat, cells: self.cells@ }
    }
}

impl Clone for Sudoku {
    fn clone(&self) -> (r: Self)
        ensures
            r@ == self@,
    {
        let r = Sudoku { box_size: self.box_size, cells: self.cells.clone() };
        assert(r.cells@ =~= self.cells@);
        r
    }
}

impl Sudoku {
    /// The grid is well formed: its view is a valid board.
    pub open spec fn wf(&self) -> bool {
        self@.valid()
    }

    /// The side of one box.
    pub fn box_size(&self) -> (n: usize)
        ensures
            n == self@.box_size,
    {
        self.box_size
    }

    /// The number of cells in a row, a column or a box.
    pub fn board_size(&self) -> (s: usize)
        requires
            self.wf(),
        ensures
            s == self@.side(),
            s <= 25,
    {
        proof {
            lemma_side_bound(self@);
        }
        self.box_size * self.box_size
    }

    /// The number of cells of the grid.
    pub fn cell_count(&self) -> (r: usize)
        ensures
            r == self@.cells.len(),
    {
        self.cells.len()
    }

    /// What the cell in column `pos.0` and row `pos.1` holds.
    pub fn get(&self, pos: (usize, usize)) -> (d: u8)
        requires
            self.wf(),
            self@.inside(pos.0 as int, pos.1 as int),
        ensures
            d == self@.at(pos.0 as int, pos.1 as int),
            d <= self@.side(),
    {
        let side = self.board_size();
        proof {
            lemma_index_bound(side as int, pos.0 as int, pos.1 as int);
            lemma_side_bound(self@);
        }
        self.cells[pos.1 * side + pos.0]
    }

    /// The grid with `digit` written into the cell in column `pos.0` and row
    /// `pos.1`; `0` empties the cell.
    pub fn set(self, pos: (usize, usize), digit: u8) -> (r: Sudoku)
        requires
            self.wf(),
            self@.inside(pos.0 as int, pos.1 as int),
            digit <= self@.side(),
        ensures
            r.wf(),
            r@ == self@.put(pos.0 as int, pos.1 as int, digit as int),
    {
        let side = self.board_size();
        proof {
            lemma_index_bound(side as int, pos.0 as int, pos.1 as int);
            lemma_side_bound(self@);
        }
        let mut r = self;
        r.cells.set(pos.1 * side + pos.0, digit);
        r
    }

    /// The cell at place `k` of the row-by-row walk, with what it holds.
    pub fn nth(&self, k: usize) -> (r: (u8, (usize, usize)))
        requires
            self.wf(),
            k < self@.cells.len(),
        ensures
            r.0 == self@.cells[k as int],
            r.1.0 == k as int % self@.side(),
            r.1.1 == k as int / self@.side(),
            self@.inside(r.1.0 as int, r.1.1 as int),
            self@.index(r.1.0 as int, r.1.1 as int) == k,
            self@.at(r.1.0 as int, r.1.1 as int) == r.0,
    {
        let side = self.board_size();
        proof {
            lemma_side_bound(self@);
            assert(side > 0) by (nonlinear_arith)
                requires
                    k < side * side,
            ;
            lemma_split(side as int, k as int);
        }
        (self.cells[k], (k % side, k / side))
    }

    /// All cells, row by row and from left to right, each with its position
    /// (column, row).
    pub fn iter(&self) -> (r: Vec<(u8, (usize, usize))>)
        requires
            self.wf(),
        ensures
            r@.len() == self@.cells.len(),
            forall|k: int|
                0 <= k < r@.len() ==> {
                    &&& (#[trigger] r@[k]).0 == self@.cells[k]
                    &&& r@[k].1.0 == k % self@.side()
                    &&& r@[k].1.1 == k / self@.side()
                    &&& self@.inside(r@[k].1.0 as int, r@[k].1.1 as int)
                    &&& self@.at(r@[k].1.0 as int, r@[k].1.1 as int) == r@[k].0
                },
    {
        let mut r: Vec<(u8, (usize, usize))> = Vec::new();
        let mut k: usize = 0;
        while k < self.cells.len()
            invariant
                self.wf(),
                k <= self.cells.len(),
                r@.len() == k,
                forall|j: int|
                    0 <= j < r@.len() ==> {
                        &&& (#[trigger] r@[j]).0 == self@.cells[j]
                        &&& r@[j].1.0 == j % self@.side()
                        &&& r@[j].1.1 == j / self@.side()
                        &&& self@.inside(r@[j].1.0 as int, r@[j].1.1 as int)
                        &&& self@.at(r@[j].1.0 as int, r@[j].1.1 as int) == r@[j].0
                    },
            decreases self.cells.len() - k,
        {
            let item = self.nth(k);
            r.push(item);
            k += 1;
        }
        r
    }

    /// The position of the `i`-th cell of `house`.
    pub fn cell(&self, house: House, i: usize) -> (pos: (usize, usize))
        requires
            self.wf(),
            house@.valid(self@.n()),
            i < self@.side(),
        ensures
            pos.0 == house@.x(self@.n(), i as int),
            pos.1 == house@.y(self@.n(), i as int),
            self@.inside(pos.0 as int, pos.1 as int),
    {
        proof {
            lemma_side_bound(self@);
        }
        match house {
            House::Row(y) => (i, y),
            House::Column(x) => (x, i),
            House::Block(bx, by) => {
                let n = self.box_size;
                proof {
                    lemma_split(n as int, i as int);
                    lemma_join(n as int, bx as int, i as int % n as int);
                    lemma_join(n as int, by as int, i as int / n as int);
                }
                (bx * n + i % n, by * n + i / n)
            },
        }
    }

    /// The digits placed in `house`.
    pub fn house_digits(&self, house: House) -> (r: Flags)
        requires
            self.wf(),
            house@.valid(self@.n()),
        ensures
            r@ == self@.unit_digits(house@),
    {
        let side = self.board_size();
        let mut r = Flags::empty();
        let mut i: usize = 0;
        while i < side
            invariant
                self.wf(),
                house@.valid(self@.n()),
                side == self@.side(),
                i <= side,
                r@ == Set::new(
                    |d: int|
                        1 <= d && exists|j: int| 0 <= j < i && #[trigger] self@.unit_at(house@, j) == d,
                ),
            decreases side - i,
        {
            let d = self.get(self.cell(house, i));
            let ghost before = r@;
            r = r.with(d);
            proof {
                lemma_side_bound(self@);
                let want = Set::new(
                    |d: int|
                        1 <= d && exists|j: int|
                            0 <= j < i + 1 && #[trigger] self@.unit_at(house@, j) == d,
                );
                assert(self@.unit_at(house@, i as int) == d);
                assert forall|e: int| r@.contains(e) == want.contains(e) by {
                    if before.contains(e) {
                        let j = choose|j: int| 0 <= j < i && #[trigger] self@.unit_at(house@, j) == e;
                        assert(0 <= j < i + 1 && self@.unit_at(house@, j) == e);
                    }
                    if want.contains(e) {
                        let j = choose|j: int|
                            0 <= j < i + 1 && #[trigger] self@.unit_at(house@, j) == e;
                        if j < i {
                            assert(before.contains(e));
                        }
                    }
                }
                assert(r@ =~= want);
            }
            i += 1;
        }
        assert(r@ =~= self@.unit_digits(house@));
        r
    }

    /// The digits placed in the row, the column or the box of `pos`.
    pub fn used(&self, pos: (usize, usize)) -> (r: Flags)
        requires
            self.wf(),
            self@.inside(pos.0 as int, pos.1 as int),
        ensures
            r@ == self@.used(pos.0 as int, pos.1 as int),
    {
        let n = self.box_size;
        proof {
            lemma_side_bound(self@);
            lemma_split(n as int, pos.0 as int);
            lemma_split(n as int, pos.1 as int);
        }
        let row = self.house_digits(House::Row(pos.1));
        let column = self.house_digits(House::Column(pos.0));
        let block = self.house_digits(House::Block(pos.0 / n, pos.1 / n));
        row.union(&column).union(&block)
    }

    /// The digits that no cell in the row, the column or the box of `pos` holds.
    pub fn available(&self, pos: (usize, usize)) -> (r: Flags)
        requires
            self.wf(),
            self@.inside(pos.0 as int, pos.1 as int),
        ensures
            r@ == self@.available(pos.0 as int, pos.1 as int),
    {
        let side = self.board_size();
        let r = self.used(pos).inverse(side as u8);
        assert(r@ =~= self@.available(pos.0 as int, pos.1 as int));
        r
    }

    /// The digits that the cell at `pos` can end up with: its own digit if it
    /// has one, else the available ones.
    pub fn options(&self, pos: (usize, usize)) -> (r: Flags)
        requires
            self.wf(),
            self@.inside(pos.0 as int, pos.1 as int),
        ensures
            r@ == self@.options(pos.0 as int, pos.1 as int),
    {
        let d = self.get(pos);
        if d != 0 {
            proof {
                lemma_side_bound(self@);
            }
            let r = Flags::empty().with(d);
            assert(r@ =~= set![d as int]);
            r
        } else {
            self.available(pos)
        }
    }

    /// The options of the cells of `house`, in the order of the house.
    pub fn house_options(&self, house: House) -> (r: Vec<Flags>)
        requires
            self.wf(),
            house@.valid(self@.n()),
        ensures
            flag_views(r@) == self@.unit_options(house@),
    {
        let side = self.board_size();
        let mut r: Vec<Flags> = Vec::new();
        let mut i: usize = 0;
        while i < side
            invariant
                self.wf(),
                house@.valid(self@.n()),
                side == self@.side(),
                i <= side,
                r@.len() == i,
                forall|j: int|
                    0 <= j < i ==> (#[trigger] r@[j])@ == self@.options(
                        house@.x(self@.n(), j),
                        house@.y(self@.n(), j),
                    ),
            decreases side - i,
        {
            let f = self.options(self.cell(house, i));
            r.push(f);
            i += 1;
        }
        assert(flag_views(r@) =~= self@.unit_options(house@));
        r
    }

    /// Reads a grid of box size `box_size` from `data`, which holds one
    /// character a cell, row by row: a digit or letter for the digit it
    /// stands for, and a space, `0` or any other character for an empty cell.
    pub fn load(data: &str, box_size: usize) -> (r: Sudoku)
        requires
            box_size <= MAX_BOX_SIZE,
        ensures
            r.wf(),
            r@ == parsed(data@, box_size as nat),
    {
        assert(box_size * box_size <= 25 && (box_size * box_size) * (box_size * box_size) <= 625)
            by (nonlinear_arith)
            requires
                box_size <= 5,
        ;
        let side = box_size * box_size;
        let count = side * side;
        let given = data.unicode_len();
        let mut cells: Vec<u8> = Vec::new();
        let mut k: usize = 0;
        while k < count
            invariant
                side <= 25,
                k <= count,
                given == data@.len(),
                cells@.len() == k,
                forall|j: int|
                    0 <= j < k ==> #[trigger] cells@[j] == (if j < data@.len() {
                        char_cell(data@[j], side as int)
                    } else {
                        0u8
                    }),
                forall|j: int| 0 <= j < k ==> #[trigger] cells@[j] <= side,
            decreases count - k,
        {
            let d = if k < given {
                cell_of_char(data.get_char(k), side)
            } else {
                0
            };
            cells.push(d);
            k += 1;
        }
        let r = Sudoku { box_size, cells };
        assert(r@.cells =~= parsed(data@, box_size as nat).cells);
        r
    }

    /// Whether no digit occurs twice in `house`.
    pub fn house_clear(&self, house: House) -> (r: bool)
        requires
            self.wf(),
            house@.valid(self@.n()),
        ensures
            r == unit_clear(self@, house@),
    {
        let side = self.board_size();
        let ghost g = self@;
        let ghost u = house@;
        let mut seen = Flags::empty();
        let mut j: usize = 0;
        while j < side
            invariant
                self.wf(),
                g == self@,
                u == house@,
                u.valid(g.n()),
                side == g.side(),
                j <= side,
                forall|d: int|
                    seen@.contains(d) <==> 1 <= d && exists|i: int|
                        0 <= i < j && #[trigger] g.unit_at(u, i) == d,
                forall|a: int, b: int|
                    0 <= a < b < j && #[trigger] g.unit_at(u, a) != 0 ==> g.unit_at(u, a)
                        != #[trigger] g.unit_at(u, b),
            decreases side - j,
        {
            let d = self.get(self.cell(house, j));
            proof {
                lemma_side_bound(g);
                assert(g.unit_at(u, j as int) == d);
            }
            if d != 0 && seen.contains(d) {
                proof {
                    let i = choose|i: int| 0 <= i < j && #[trigger] g.unit_at(u, i) == d;
                    assert(g.unit_at(u, i) != 0 && g.unit_at(u, i) == g.unit_at(u, j as int));
                }
                return false;
            }
            let ghost before = seen@;
            seen = seen.with(d);
            proof {
                assert forall|e: int|
                    seen@.contains(e) <==> 1 <= e && exists|i: int|
                        0 <= i < j + 1 && #[trigger] g.unit_at(u, i) == e by {
                    if before.contains(e) {
                        let i = choose|i: int| 0 <= i < j && #[trigger] g.unit_at(u, i) == e;
                        assert(0 <= i < j + 1 && g.unit_at(u, i) == e);
                    }
                    if 1 <= e && exists|i: int| 0 <= i < j + 1 && #[trigger] g.unit_at(u, i) == e {
                        let i = choose|i: int| 0 <= i < j + 1 && #[trigger] g.unit_at(u, i) == e;
                        if i < j {
                            assert(before.contains(e));
                        }
                    }
                }
                assert forall|a: int, b: int|
                    0 <= a < b < j + 1 && #[trigger] g.unit_at(u, a) != 0 implies g.unit_at(u, a)
                    != #[trigger] g.unit_at(u, b) by {
                    if b == j && g.unit_at(u, a) == d {
                        assert(before.contains(d as int));
                    }
                }
            }
            j += 1;
        }
        true
    }

    /// Whether every cell holds a digit and no digit occurs twice in a row, a
    /// column or a box.
    pub fn is_solved(&self) -> (r: bool)
        requires
            self.wf(),
        ensures
            r == self@.solved(),
    {
        let side = self.board_size();
        let n = self.box_size();
        let count = self.cell_count();
        let ghost g = self@;
        proof {
            lemma_consistent_by_units(g);
            lemma_side_bound(g);
        }
        let mut k: usize = 0;
        while k < count
            invariant
                self.wf(),
                g == self@,
                count == g.cells.len(),
                k <= count,
                forall|x: int, y: int|
                    g.inside(x, y) && g.index(x, y) < k ==> #[trigger] g.at(x, y) != 0,
            decreases count - k,
        {
            let (d, pos) = self.nth(k);
            if d == 0 {
                return false;
            }
            assert forall|x: int, y: int| g.inside(x, y) && g.index(x, y) < k + 1 implies #[trigger] g.at(
                x,
                y,
            ) != 0 by {
                if g.index(x, y) == k {
                }
            }
            k += 1;
        }
        assert(g.full()) by {
            assert forall|x: int, y: int| g.inside(x, y) implies #[trigger] g.at(x, y) != 0 by {
                lemma_index_bound(g.side(), x, y);
            }
        }
        let mut a: usize = 0;
        while a < side
            invariant
                self.wf(),
                g == self@,
                side == g.side(),
                a <= side,
                forall|j: int| 0 <= j < a ==> unit_clear(g, Unit::Row(j)) && unit_clear(g, Unit::Column(j)),
            decreases side - a,
        {
            if !self.house_clear(House::Row(a)) {
                proof {
                    lemma_consistent_by_units(g);
                    assert(Unit::Row(a as int).valid(g.n()));
                }
                return false;
            }
            if !self.house_clear(House::Column(a)) {
                proof {
                    lemma_consistent_by_units(g);
                    assert(Unit::Column(a as int).valid(g.n()));
                }
                return false;
            }
            a += 1;
        }
        let mut bx: usize = 0;
        while bx < n
            invariant
                self.wf(),
                g == self@,
                n == g.n(),
                bx <= n,
                forall|i: int, j: int| 0 <= i < bx && 0 <= j < n ==> unit_clear(g, Unit::Block(i, j)),
            decreases n - bx,
        {
            let mut by: usize = 0;
            while by < n
                invariant
                    self.wf(),
                    g == self@,
                    n == g.n(),
                    bx < n,
                    by <= n,
                    forall|i: int, j: int|
                        0 <= i < bx && 0 <= j < n ==> unit_clear(g, Unit::Block(i, j)),
                    forall|j: int| 0 <= j < by ==> unit_clear(g, Unit::Block(bx as int, j)),
                decreases n - by,
            {
                if !self.house_clear(House::Block(bx, by)) {
                    proof {
                        lemma_consistent_by_units(g);
                        assert(Unit::Block(bx as int, by as int).valid(g.n()));
                    }
                    return false;
                }
                by += 1;
            }
            bx += 1;
        }
        assert forall|u: Unit| u.valid(g.n()) implies #[trigger] unit_clear(g, u) by {
            match u {
                Unit::Row(j) => {
                    assert(unit_clear(g, Unit::Row(j)));
                },
                Unit::Column(j) => {
                    assert(unit_clear(g, Unit::Column(j)));
                },
                Unit::Block(i, j) => {
                    assert(unit_clear(g, Unit::Block(i, j)));
                },
            }
        }
        true
    }

    /// The options of the cells of row `y`, from left to right.
    pub fn iter_row_avail(&self, y: usize) -> (r: Vec<Flags>)
        requires
            self.wf(),
            y < self@.side(),
        ensures
            flag_views(r@) == self@.unit_options(Unit::Row(y as int)),
    {
        self.house_options(House::Row(y))
    }

    /// The options of the cells of column `x`, from top to bottom.
    pub fn iter_column_avail(&self, x: usize) -> (r: Vec<Flags>)
        requires
            self.wf(),
            x < self@.side(),
        ensures
            flag_views(r@) == self@.unit_options(Unit::Column(x as int)),
    {
        self.house_options(House::Column(x))
    }

    /// The options of the cells of the box in box column `pos.0` and box row
    /// `pos.1`, row by row.
    pub fn iter_box_avail(&self, pos: (usize, usize)) -> (r: Vec<Flags>)
        requires
            self.wf(),
            pos.0 < self@.box_size,
            pos.1 < self@.box_size,
        ensures
            flag_views(r@) == self@.unit_options(Unit::Block(pos.0 as int, pos.1 as int)),
    {
        self.house_options(House::Block(pos.0, pos.1))
    }
}

} // verus!
