use vstd::prelude::*;

verus! {

/// Largest box size that fits the 32 digits of a candidate set.
pub const MAX_BOX_SIZE: usize = 5;

/// The mathematical model of a grid: `box_size` is the side of one box, and
/// `cells` holds the grid row by row, `0` standing for an empty cell.
pub struct Board {
    pub box_size: nat,
    pub cells: Seq<u8>,
}

/// A row, a column (each named by its number) or a box (named by its box
/// column and box row).
pub enum Unit {
    Row(int),
    Column(int),
    Block(int, int),
}

impl Unit {
    /// Whether the unit exists in a grid of box size `n`.
    pub open spec fn valid(self, n: int) -> bool {
        match self {
            Unit::Row(y) => 0 <= y < n * n,
            Unit::Column(x) => 0 <= x < n * n,
            Unit::Block(bx, by) => 0 <= bx < n && 0 <= by < n,
        }
    }

    /// Column of the `i`-th cell of the unit; a box is walked row by row.
    pub open spec fn x(self, n: int, i: int) -> int {
        match self {
            Unit::Row(y) => i,
            Unit::Column(x) => x,
            Unit::Block(bx, by) => bx * n + i % n,
        }
    }

    /// Row of the `i`-th cell of the unit.
    pub open spec fn y(self, n: int, i: int) -> int {
        match self {
            Unit::Row(y) => y,
            Unit::Column(x) => i,
            Unit::Block(bx, by) => by * n + i / n,
        }
    }
}

impl Board {
    /// The number of cells in a row, a column or a box.
    pub open spec fn side(self) -> int {
        self.n() * self.n()
    }

    /// The side of one box, as an integer.
    pub open spec fn n(self) -> int {
        self.box_size as int
    }

    /// The box size is one that the candidate sets can hold, the grid has
    /// the right number of cells, and no cell exceeds the largest digit.
    pub open spec fn valid(self) -> bool {
        &&& self.box_size <= MAX_BOX_SIZE
        &&& self.cells.len() == self.side() * self.side()
        &&& forall|i: int| 0 <= i < self.cells.len() ==> #[trigger] self.cells[i] <= self.side()
    }

    /// Whether column `x` and row `y` name a cell of the grid.
    pub open spec fn inside(self, x: int, y: int) -> bool {
        0 <= x < self.side() && 0 <= y < self.side()
    }

    /// The place of cell `(x, y)` in `cells`.
    pub open spec fn index(self, x: int, y: int) -> int {
        y * self.side() + x
    }

    /// What cell `(x, y)` holds: `0` or a digit.
    pub open spec fn at(self, x: int, y: int) -> int {
        self.cells[self.index(x, y)] as int
    }

    /// Whether two cells share a row, a column or a box.
    pub open spec fn same_unit(self, x1: int, y1: int, x2: int, y2: int) -> bool {
        ||| y1 == y2
        ||| x1 == x2
        ||| (x1 / self.n() == x2 / self.n() && y1 / self.n() == y2 / self.n())
    }

    /// What the `i`-th cell of unit `u` holds.
    pub open spec fn unit_at(self, u: Unit, i: int) -> int {
        self.at(u.x(self.n(), i), u.y(self.n(), i))
    }

    /// The digits placed in unit `u`.
    pub open spec fn unit_digits(self, u: Unit) -> Set<int> {
        Set::new(
            |d: int| 1 <= d && exists|i: int| 0 <= i < self.side() && #[trigger] self.unit_at(u, i) == d,
        )
    }

    /// The digits placed in the row, the column or the box of cell `(x, y)`.
    pub open spec fn used(self, x: int, y: int) -> Set<int> {
        self.unit_digits(Unit::Row(y)).union(self.unit_digits(Unit::Column(x))).union(
            self.unit_digits(Unit::Block(x / self.n(), y / self.n())),
        )
    }

    /// The digits that no cell in the row, the column or the box of `(x, y)`
    /// holds.
    pub open spec fn available(self, x: int, y: int) -> Set<int> {
        Set::new(|d: int| 1 <= d <= self.side() && !self.used(x, y).contains(d))
    }

    /// The digits that cell `(x, y)` can end up with: its own digit if it
    /// has one, else the available ones.
    pub open spec fn options(self, x: int, y: int) -> Set<int> {
        if self.at(x, y) != 0 {
            set![self.at(x, y)]
        } else {
            self.available(x, y)
        }
    }

    /// The options of the cells of unit `u`, in the order of the unit.
    pub open spec fn unit_options(self, u: Unit) -> Seq<Set<int>> {
        Seq::new(self.side() as nat, |i: int| self.options(u.x(self.n(), i), u.y(self.n(), i)))
    }

    /// The grid with `digit` written into cell `(x, y)`.
    pub open spec fn put(self, x: int, y: int, digit: int) -> Board {
        Board { box_size: self.box_size, cells: self.cells.update(self.index(x, y), digit as u8) }
    }

    /// Two different cells of one unit hold the same digit.
    pub open spec fn conflict(self, x1: int, y1: int, x2: int, y2: int) -> bool {
        &&& self.inside(x1, y1)
        &&& self.inside(x2, y2)
        &&& (x1 != x2 || y1 != y2)
        &&& self.same_unit(x1, y1, x2, y2)
        &&& self.at(x1, y1) != 0
        &&& self.at(x1, y1) == self.at(x2, y2)
    }

    /// No digit occurs twice in a row, a column or a box.
    pub open spec fn consistent(self) -> bool {
        &&& self.valid()
        &&& forall|x1: int, y1: int, x2: int, y2: int| !#[trigger] self.conflict(x1, y1, x2, y2)
    }

    /// No cell is empty.
    pub open spec fn full(self) -> bool {
        forall|x: int, y: int| self.inside(x, y) ==> #[trigger] self.at(x, y) != 0
    }

    /// Every cell holds a digit and no digit occurs twice in a row, a column
    /// or a box, so that each unit holds each digit exactly once.
    pub open spec fn solved(self) -> bool {
        self.consistent() && self.full()
    }

    /// `self` has the size of `start` and keeps every digit that `start` holds.
    pub open spec fn completes(self, start: Board) -> bool {
        &&& self.valid()
        &&& self.box_size == start.box_size
        &&& forall|x: int, y: int|
            start.inside(x, y) && #[trigger] start.at(x, y) != 0 ==> self.at(x, y) == start.at(x, y)
    }

    /// Some solved grid completes this one.
    pub open spec fn solvable(self) -> bool {
        exists|s: Board| #[trigger] s.solved() && s.completes(self)
    }

    /// The number of empty cells.
    pub open spec fn blanks(self) -> nat {
        zeros(self.cells)
    }
}

/// The number of entries of `s` that are `0`.
pub open spec fn zeros(s: Seq<u8>) -> nat
    decreases s.len(),
{
    if s.len() == 0 {
        0
    } else {
        zeros(s.drop_last()) + if s.last() == 0 {
            1nat
        } else {
            0nat
        }
    }
}

/// A sequence with a zero entry counts at least one zero, and an update that
/// overwrites a zero with a digit takes one away.
pub proof fn lemma_zeros_update(s: Seq<u8>, i: int, v: u8)
    requires
        0 <= i < s.len(),
    ensures
        s[i] == 0 ==> zeros(s) >= 1,
        s[i] == 0 && v != 0 ==> zeros(s.update(i, v)) == zeros(s) - 1,
        zeros(s) <= s.len(),
    decreases s.len(),
{
    let t = s.update(i, v);
    if i == s.len() - 1 {
        assert(t.drop_last() =~= s.drop_last());
        lemma_zeros_bound(s.drop_last());
    } else {
        lemma_zeros_update(s.drop_last(), i, v);
        assert(t.drop_last() =~= s.drop_last().update(i, v));
    }
}

/// A sequence counts no more zeros than it has entries, and none exactly
/// when no entry is zero.
pub proof fn lemma_zeros_bound(s: Seq<u8>)
    ensures
        zeros(s) <= s.len(),
        zeros(s) == 0 <==> forall|i: int| 0 <= i < s.len() ==> s[i] != 0,
    decreases s.len(),
{
    if s.len() > 0 {
        lemma_zeros_bound(s.drop_last());
        if zeros(s) == 0 {
            assert forall|i: int| 0 <= i < s.len() implies s[i] != 0 by {
                if i < s.len() - 1 {
                    assert(s.drop_last()[i] == s[i]);
                }
            }
        }
        if forall|i: int| 0 <= i < s.len() ==> s[i] != 0 {
            assert forall|i: int| 0 <= i < s.drop_last().len() implies s.drop_last()[i] != 0 by {
                assert(s.drop_last()[i] == s[i]);
            }
        }
    }
}

/// A cell of the grid has a place in `cells`.
pub proof fn lemma_index_bound(side: int, x: int, y: int)
    by (nonlinear_arith)
    requires
        0 <= x < side,
        0 <= y < side,
    ensures
        0 <= y * side + x < side * side,
{
}

/// Two different cells have different places in `cells`.
pub proof fn lemma_index_distinct(side: int, x1: int, y1: int, x2: int, y2: int)
    by (nonlinear_arith)
    requires
        0 <= x1 < side,
        0 <= y1 < side,
        0 <= x2 < side,
        0 <= y2 < side,
        x1 != x2 || y1 != y2,
    ensures
        y1 * side + x1 != y2 * side + x2,
{
}

/// Quotient `q` and remainder `r` name one number below `n * n`, and
/// division by `n` gives them back.
pub proof fn lemma_join(n: int, q: int, r: int)
    requires
        0 < n,
        0 <= q < n,
        0 <= r < n,
    ensures
        0 <= q * n + r < n * n,
        (q * n + r) / n == q,
        (q * n + r) % n == r,
{
    assert(0 <= q * n + r < n * n) by (nonlinear_arith)
        requires
            0 < n,
            0 <= q < n,
            0 <= r < n,
    ;
    vstd::arithmetic::div_mod::lemma_fundamental_div_mod_converse(q * n + r, n, q, r);
}

/// A number below `n * n` has a quotient and a remainder below `n`.
pub proof fn lemma_split(n: int, x: int)
    requires
        0 < n,
        0 <= x < n * n,
    ensures
        0 <= x / n < n,
        0 <= x % n < n,
        (x / n) * n + x % n == x,
{
    vstd::arithmetic::div_mod::lemma_fundamental_div_mod(x, n);
    vstd::arithmetic::div_mod::lemma_div_pos_is_pos(x, n);
    vstd::arithmetic::div_mod::lemma_mod_pos_bound(x, n);
    let q = x / n;
    assert(q < n && q * n == n * q) by (nonlinear_arith)
        requires
            0 < n,
            0 <= q,
            n * q <= x,
            x < n * n,
    ;
}

/// The three units that hold cell `(x, y)`.
pub open spec fn units_of(g: Board, x: int, y: int, u: Unit) -> bool {
    u == Unit::Row(y) || u == Unit::Column(x) || u == Unit::Block(x / g.n(), y / g.n())
}

/// A valid grid has at most 25 cells a side, and a grid with a cell has a
/// box size of at least 1.
pub proof fn lemma_side_bound(g: Board)
    requires
        g.valid(),
    ensures
        0 <= g.n() <= 5,
        0 <= g.side() <= 25,
        g.side() > 0 ==> g.n() >= 1,
        g.side() * g.side() <= 625,
{
    let n = g.n();
    assert(0 <= n * n <= 25 && (n * n > 0 ==> n >= 1) && (n * n) * (n * n) <= 625)
        by (nonlinear_arith)
        requires
            0 <= n <= 5,
    ;
}

/// A cell of the grid holds at most the largest digit.
pub proof fn lemma_cell_bound(g: Board, x: int, y: int)
    requires
        g.valid(),
        g.inside(x, y),
    ensures
        0 <= g.index(x, y) < g.cells.len(),
        0 <= g.at(x, y) <= g.side(),
{
    lemma_index_bound(g.side(), x, y);
}

/// Writing a digit into a cell changes that cell and no other.
pub proof fn lemma_put(g: Board, x: int, y: int, d: int)
    requires
        g.valid(),
        g.inside(x, y),
        0 <= d <= g.side(),
    ensures
        g.put(x, y, d).valid(),
        g.put(x, y, d).at(x, y) == d,
        forall|x2: int, y2: int|
            g.inside(x2, y2) && (x2 != x || y2 != y) ==> #[trigger] g.put(x, y, d).at(x2, y2)
                == g.at(x2, y2),
        g.at(x, y) == 0 && d != 0 ==> g.put(x, y, d).blanks() == g.blanks() - 1,
{
    lemma_side_bound(g);
    lemma_index_bound(g.side(), x, y);
    lemma_zeros_update(g.cells, g.index(x, y), d as u8);
    let h = g.put(x, y, d);
    assert forall|x2: int, y2: int| g.inside(x2, y2) && (x2 != x || y2 != y) implies #[trigger] h.at(
        x2,
        y2,
    ) == g.at(x2, y2) by {
        lemma_index_distinct(g.side(), x, y, x2, y2);
        lemma_index_bound(g.side(), x2, y2);
    }
}

/// The cells of a unit lie inside the grid.
pub proof fn lemma_unit_cell(g: Board, u: Unit, i: int)
    requires
        g.valid(),
        u.valid(g.n()),
        0 <= i < g.side(),
    ensures
        g.inside(u.x(g.n(), i), u.y(g.n(), i)),
{
    lemma_side_bound(g);
    let n = g.n();
    match u {
        Unit::Row(y) => {},
        Unit::Column(x) => {},
        Unit::Block(bx, by) => {
            lemma_split(n, i);
            lemma_join(n, bx, i % n);
            lemma_join(n, by, i / n);
        },
    }
}

/// Two different places of a unit are two different cells, which share a
/// unit.
pub proof fn lemma_unit_distinct(g: Board, u: Unit, i: int, j: int)
    requires
        g.valid(),
        u.valid(g.n()),
        0 <= i < g.side(),
        0 <= j < g.side(),
        i != j,
    ensures
        u.x(g.n(), i) != u.x(g.n(), j) || u.y(g.n(), i) != u.y(g.n(), j),
        g.same_unit(u.x(g.n(), i), u.y(g.n(), i), u.x(g.n(), j), u.y(g.n(), j)),
{
    lemma_side_bound(g);
    let n = g.n();
    match u {
        Unit::Row(y) => {},
        Unit::Column(x) => {},
        Unit::Block(bx, by) => {
            lemma_split(n, i);
            lemma_split(n, j);
            lemma_join(n, bx, i % n);
            lemma_join(n, by, i / n);
            lemma_join(n, bx, j % n);
            lemma_join(n, by, j / n);
        },
    }
}

/// Every cell of a unit of `(x, y)` shares a unit with `(x, y)`.
pub proof fn lemma_unit_of_cell(g: Board, x: int, y: int, u: Unit, i: int)
    requires
        g.valid(),
        g.inside(x, y),
        units_of(g, x, y, u),
        0 <= i < g.side(),
    ensures
        u.valid(g.n()),
        g.inside(u.x(g.n(), i), u.y(g.n(), i)),
        g.same_unit(x, y, u.x(g.n(), i), u.y(g.n(), i)),
{
    lemma_side_bound(g);
    let n = g.n();
    lemma_split(n, x);
    lemma_split(n, y);
    match u {
        Unit::Row(y) => {},
        Unit::Column(x) => {},
        Unit::Block(bx, by) => {
            lemma_split(n, i);
            lemma_join(n, bx, i % n);
            lemma_join(n, by, i / n);
        },
    }
}

/// No digit occurs twice in unit `u`.
pub open spec fn unit_clear(g: Board, u: Unit) -> bool {
    forall|i: int, j: int|
        0 <= i < j < g.side() && #[trigger] g.unit_at(u, i) != 0 ==> g.unit_at(u, i)
            != #[trigger] g.unit_at(u, j)
}

/// Two different cells that share a unit have two different places in one
/// unit.
pub proof fn lemma_common_unit(g: Board, x1: int, y1: int, x2: int, y2: int) -> (r: (
    Unit,
    int,
    int,
))
    requires
        g.valid(),
        g.inside(x1, y1),
        g.inside(x2, y2),
        x1 != x2 || y1 != y2,
        g.same_unit(x1, y1, x2, y2),
    ensures
        r.0.valid(g.n()),
        0 <= r.1 < g.side(),
        0 <= r.2 < g.side(),
        r.1 != r.2,
        r.0.x(g.n(), r.1) == x1,
        r.0.y(g.n(), r.1) == y1,
        r.0.x(g.n(), r.2) == x2,
        r.0.y(g.n(), r.2) == y2,
{
    lemma_side_bound(g);
    let n = g.n();
    if y1 == y2 {
        (Unit::Row(y1), x1, x2)
    } else if x1 == x2 {
        (Unit::Column(x1), y1, y2)
    } else {
        lemma_split(n, x1);
        lemma_split(n, y1);
        lemma_split(n, x2);
        lemma_split(n, y2);
        lemma_join(n, y1 % n, x1 % n);
        lemma_join(n, y2 % n, x2 % n);
        (Unit::Block(x1 / n, y1 / n), (y1 % n) * n + x1 % n, (y2 % n) * n + x2 % n)
    }
}

/// A valid grid repeats no digit in a row, a column or a box exactly when
/// no unit holds a digit twice.
pub proof fn lemma_consistent_by_units(g: Board)
    requires
        g.valid(),
    ensures
        g.consistent() <==> forall|u: Unit| u.valid(g.n()) ==> #[trigger] unit_clear(g, u),
{
    let n = g.n();
    if forall|u: Unit| u.valid(g.n()) ==> #[trigger] unit_clear(g, u) {
        assert forall|x1: int, y1: int, x2: int, y2: int| !#[trigger] g.conflict(x1, y1, x2, y2) by {
            if g.conflict(x1, y1, x2, y2) {
                let (u, i, j) = lemma_common_unit(g, x1, y1, x2, y2);
                assert(unit_clear(g, u));
                assert(g.unit_at(u, i) == g.at(x1, y1));
                assert(g.unit_at(u, j) == g.at(x2, y2));
                if i < j {
                    assert(g.unit_at(u, i) != g.unit_at(u, j));
                } else {
                    assert(g.unit_at(u, j) != g.unit_at(u, i));
                }
            }
        }
    }
    if g.consistent() {
        assert forall|u: Unit| u.valid(g.n()) implies #[trigger] unit_clear(g, u) by {
            assert forall|i: int, j: int|
                0 <= i < j < g.side() && #[trigger] g.unit_at(u, i) != 0 implies g.unit_at(u, i)
                != #[trigger] g.unit_at(u, j) by {
                lemma_unit_cell(g, u, i);
                lemma_unit_cell(g, u, j);
                lemma_unit_distinct(g, u, i, j);
                assert(!g.conflict(u.x(n, i), u.y(n, i), u.x(n, j), u.y(n, j)));
            }
        }
    }
}

} // verus!
