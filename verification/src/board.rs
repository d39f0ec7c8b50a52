//! The square game board shared by both tic-tac-toe agents.
//!
//! A board is an `n x n` grid of cells. Each cell holds an `X`, an `O`, is
//! `Empty`, or is a `Wall` that nobody may play on. Play goes on until no cell
//! is empty; the score is the number of three-in-a-row lines of `X` minus the
//! number of such lines of `O` (lines run across, down and along both
//! diagonals, and may overlap).
use vstd::prelude::*;

verus! {

/// Largest side length of a board. Every score the agents compute on such a
/// board fits an `i32`.
pub const MAX_SIDE: usize = 50;

/// One square of the board.
#[derive(Clone, Copy, PartialEq, Eq, Structural, Debug)]
pub enum Cell {
    X,
    O,
    Empty,
    Wall,
}

/// One of the two sides of the game.
#[derive(Clone, Copy, PartialEq, Eq, Structural, Debug)]
pub enum Player {
    X,
    O,
}

/// A move: the row and the column of the cell to play.
pub type Move = (usize, usize);

impl Player {
    /// The opponent of `self`.
    pub open spec fn opponent(self) -> Player {
        match self {
            Player::X => Player::O,
            Player::O => Player::X,
        }
    }

    /// The cell value that a move of `self` writes.
    pub open spec fn piece(self) -> Cell {
        match self {
            Player::X => Cell::X,
            Player::O => Cell::O,
        }
    }

    /// Returns the opponent.
    pub fn flip(&self) -> (r: Player)
        ensures
            r == self.opponent(),
    {
        match self {
            Player::X => Player::O,
            Player::O => Player::X,
        }
    }
}

/// `sum(n, f) = f(0) + f(1) + ... + f(n - 1)`.
pub open spec fn sum(n: int, f: spec_fn(int) -> int) -> int
    decreases n,
{
    if n <= 0 {
        0
    } else {
        sum(n - 1, f) + f(n - 1)
    }
}

/// If every term lies in `[lo, hi]`, the sum of `n` terms lies in `[n * lo, n * hi]`.
pub proof fn lemma_sum_bounds(n: int, f: spec_fn(int) -> int, lo: int, hi: int)
    requires
        0 <= n,
        forall|k: int| 0 <= k < n ==> lo <= #[trigger] f(k) <= hi,
    ensures
        n * lo <= sum(n, f) <= n * hi,
    decreases n,
{
    if n > 0 {
        lemma_sum_bounds(n - 1, f, lo, hi);
        assert(sum(n, f) == sum(n - 1, f) + f(n - 1));
        assert(lo <= f(n - 1) <= hi);
        assert((n - 1) * lo + lo == n * lo) by (nonlinear_arith);
        assert((n - 1) * hi + hi == n * hi) by (nonlinear_arith);
    } else {
        assert(n * lo == 0 && n * hi == 0) by (nonlinear_arith)
            requires
                n == 0,
        ;
    }
}

/// Sums that agree term by term are equal.
pub proof fn lemma_sum_ext(n: int, f: spec_fn(int) -> int, g: spec_fn(int) -> int)
    requires
        forall|k: int| 0 <= k < n ==> #[trigger] f(k) == g(k),
    ensures
        sum(n, f) == sum(n, g),
    decreases n,
{
    if n > 0 {
        lemma_sum_ext(n - 1, f, g);
    }
}

/// The grid is square and no larger than `MAX_SIDE`.
pub open spec fn wf_grid(g: Seq<Seq<Cell>>) -> bool {
    &&& g.len() <= MAX_SIDE
    &&& forall|i: int| 0 <= i < g.len() ==> #[trigger] g[i].len() == g.len()
}

/// `(i, j)` is a cell of the grid.
pub open spec fn in_bounds(g: Seq<Seq<Cell>>, i: int, j: int) -> bool {
    0 <= i < g.len() && 0 <= j < g.len()
}

/// Row step of direction `d`: across, down, down-right, down-left.
pub open spec fn dir_di(d: int) -> int {
    if d == 0 {
        0
    } else {
        1
    }
}

/// Column step of direction `d`: across, down, down-right, down-left.
pub open spec fn dir_dj(d: int) -> int {
    if d == 0 {
        1
    } else if d == 1 {
        0
    } else if d == 2 {
        1
    } else {
        -1
    }
}

/// The three cells of the line that starts at `(i, j)` and runs in direction
/// `d`, if all three lie on the board.
pub open spec fn window(g: Seq<Seq<Cell>>, i: int, j: int, d: int) -> Option<(Cell, Cell, Cell)> {
    let i2 = i + dir_di(d);
    let j2 = j + dir_dj(d);
    let i3 = i + 2 * dir_di(d);
    let j3 = j + 2 * dir_dj(d);
    if in_bounds(g, i, j) && in_bounds(g, i3, j3) {
        Some((g[i][j], g[i2][j2], g[i3][j3]))
    } else {
        None
    }
}

/// 1 when the line from `(i, j)` in direction `d` holds three `c`, else 0.
pub open spec fn triplet_at(g: Seq<Seq<Cell>>, c: Cell, i: int, j: int, d: int) -> int {
    match window(g, i, j, d) {
        Some((a, b, e)) => if a == c && b == c && e == c {
            1
        } else {
            0
        },
        None => 0,
    }
}

/// Number of three-in-a-row lines of `c` that start at `(i, j)`.
pub open spec fn triplets_from(g: Seq<Seq<Cell>>, c: Cell, i: int, j: int) -> int {
    sum(4, |d: int| triplet_at(g, c, i, j, d))
}

/// Number of three-in-a-row lines of `c` that start in row `i`.
pub open spec fn triplets_in_row(g: Seq<Seq<Cell>>, c: Cell, i: int) -> int {
    sum(g.len() as int, |j: int| triplets_from(g, c, i, j))
}

/// Number of three-in-a-row lines of `c` on the board.
pub open spec fn triplet_count(g: Seq<Seq<Cell>>, c: Cell) -> int {
    sum(g.len() as int, |i: int| triplets_in_row(g, c, i))
}

/// The score of the board: lines of `X` minus lines of `O`.
pub open spec fn score_of(g: Seq<Seq<Cell>>) -> int {
    triplet_count(g, Cell::X) - triplet_count(g, Cell::O)
}

/// The empty cells of row `i` among its first `j` columns, left to right.
pub open spec fn row_moves(g: Seq<Seq<Cell>>, i: int, j: int) -> Seq<Move>
    decreases j,
{
    if j <= 0 {
        Seq::empty()
    } else if g[i][j - 1] == Cell::Empty {
        row_moves(g, i, j - 1).push((i as usize, (j - 1) as usize))
    } else {
        row_moves(g, i, j - 1)
    }
}

/// The empty cells of the first `i` rows, row by row.
pub open spec fn rows_moves(g: Seq<Seq<Cell>>, i: int) -> Seq<Move>
    decreases i,
{
    if i <= 0 {
        Seq::empty()
    } else {
        rows_moves(g, i - 1) + row_moves(g, i - 1, g.len() as int)
    }
}

/// The legal moves: every empty cell, in row-major order.
pub open spec fn moves_of(g: Seq<Seq<Cell>>) -> Seq<Move> {
    rows_moves(g, g.len() as int)
}

/// Number of empty cells.
pub open spec fn num_empty(g: Seq<Seq<Cell>>) -> int {
    moves_of(g).len() as int
}

/// The game is over once no cell is empty.
pub open spec fn game_over_of(g: Seq<Seq<Cell>>) -> bool {
    num_empty(g) == 0
}

/// The grid with cell `m` set to `c`.
pub open spec fn place(g: Seq<Seq<Cell>>, m: Move, c: Cell) -> Seq<Seq<Cell>> {
    g.update(m.0 as int, g[m.0 as int].update(m.1 as int, c))
}

/// `m` may be played on `g`: it is an empty cell of the board.
pub open spec fn is_open(g: Seq<Seq<Cell>>, m: Move) -> bool {
    in_bounds(g, m.0 as int, m.1 as int) && g[m.0 as int][m.1 as int] == Cell::Empty
}

/// Every entry of `row_moves` is an empty cell of row `i` before column `j`.
pub proof fn lemma_row_moves_open(g: Seq<Seq<Cell>>, i: int, j: int)
    requires
        wf_grid(g),
        0 <= i < g.len(),
        0 <= j <= g.len(),
    ensures
        forall|k: int|
            0 <= k < row_moves(g, i, j).len() ==> {
                let m = #[trigger] row_moves(g, i, j)[k];
                &&& is_open(g, m)
                &&& m.0 == i
                &&& m.1 < j
            },
        row_moves(g, i, j).len() <= j,
    decreases j,
{
    if j > 0 {
        lemma_row_moves_open(g, i, j - 1);
    }
}

/// Every entry of `rows_moves` is an empty cell of the first `i` rows.
pub proof fn lemma_rows_moves_open(g: Seq<Seq<Cell>>, i: int)
    requires
        wf_grid(g),
        0 <= i <= g.len(),
    ensures
        forall|k: int|
            0 <= k < rows_moves(g, i).len() ==> {
                let m = #[trigger] rows_moves(g, i)[k];
                &&& is_open(g, m)
                &&& m.0 < i
            },
    decreases i,
{
    if i > 0 {
        lemma_rows_moves_open(g, i - 1);
        lemma_row_moves_open(g, i - 1, g.len() as int);
        let a = rows_moves(g, i - 1);
        let b = row_moves(g, i - 1, g.len() as int);
        assert forall|k: int| 0 <= k < (a + b).len() implies {
            let m = #[trigger] (a + b)[k];
            &&& is_open(g, m)
            &&& m.0 < i
        } by {
            if k < a.len() {
                assert((a + b)[k] == a[k]);
            } else {
                assert((a + b)[k] == b[k - a.len()]);
            }
        }
    }
}

/// Every legal move is an empty cell of the board.
pub proof fn lemma_moves_open(g: Seq<Seq<Cell>>)
    requires
        wf_grid(g),
    ensures
        forall|k: int| 0 <= k < moves_of(g).len() ==> is_open(g, #[trigger] moves_of(g)[k]),
{
    lemma_rows_moves_open(g, g.len() as int);
}

/// A board has at most `MAX_SIDE * MAX_SIDE` empty cells.
pub proof fn lemma_num_empty_bound(g: Seq<Seq<Cell>>)
    requires
        wf_grid(g),
    ensures
        num_empty(g) <= MAX_SIDE * MAX_SIDE,
{
    lemma_rows_moves_len(g, g.len() as int);
    let n = g.len() as int;
    assert(n * n <= 2500) by (nonlinear_arith)
        requires
            0 <= n <= 50,
    ;
}

proof fn lemma_rows_moves_len(g: Seq<Seq<Cell>>, i: int)
    requires
        wf_grid(g),
        0 <= i <= g.len(),
    ensures
        rows_moves(g, i).len() <= i * g.len(),
    decreases i,
{
    if i > 0 {
        lemma_rows_moves_len(g, i - 1);
        lemma_row_moves_open(g, i - 1, g.len() as int);
        assert((i - 1) * g.len() + g.len() == i * g.len()) by (nonlinear_arith);
    }
}

/// `row_moves` only grows with `j`.
proof fn lemma_row_moves_mono(g: Seq<Seq<Cell>>, i: int, j: int, j2: int)
    requires
        0 <= j <= j2,
    ensures
        row_moves(g, i, j).len() <= row_moves(g, i, j2).len(),
    decreases j2,
{
    if j2 > j {
        lemma_row_moves_mono(g, i, j, j2 - 1);
    }
}

/// `rows_moves` only grows with `i`.
proof fn lemma_rows_moves_mono(g: Seq<Seq<Cell>>, i: int, i2: int)
    requires
        0 <= i <= i2,
    ensures
        rows_moves(g, i).len() <= rows_moves(g, i2).len(),
    decreases i2,
{
    if i2 > i {
        lemma_rows_moves_mono(g, i, i2 - 1);
    }
}

/// A board with an empty cell has a legal move.
pub proof fn lemma_open_cell_has_move(g: Seq<Seq<Cell>>, i: int, j: int)
    requires
        wf_grid(g),
        in_bounds(g, i, j),
        g[i][j] == Cell::Empty,
    ensures
        num_empty(g) > 0,
{
    assert(row_moves(g, i, j + 1).len() > 0);
    lemma_row_moves_mono(g, i, j + 1, g.len() as int);
    assert(rows_moves(g, i + 1).len() > 0);
    lemma_rows_moves_mono(g, i + 1, g.len() as int);
}

/// Filling an empty cell leaves the other rows' moves unchanged and removes
/// one move from its own row.
proof fn lemma_row_moves_place(g: Seq<Seq<Cell>>, m: Move, c: Cell, i: int, j: int)
    requires
        wf_grid(g),
        is_open(g, m),
        c != Cell::Empty,
        0 <= i < g.len(),
        0 <= j <= g.len(),
    ensures
        row_moves(place(g, m, c), i, j).len() == if i == m.0 && j > m.1 {
            row_moves(g, i, j).len() - 1
        } else {
            row_moves(g, i, j).len() as int
        },
    decreases j,
{
    if j > 0 {
        lemma_row_moves_place(g, m, c, i, j - 1);
    }
}

proof fn lemma_rows_moves_place(g: Seq<Seq<Cell>>, m: Move, c: Cell, i: int)
    requires
        wf_grid(g),
        is_open(g, m),
        c != Cell::Empty,
        0 <= i <= g.len(),
    ensures
        rows_moves(place(g, m, c), i).len() == if i > m.0 {
            rows_moves(g, i).len() - 1
        } else {
            rows_moves(g, i).len() as int
        },
    decreases i,
{
    if i > 0 {
        lemma_rows_moves_place(g, m, c, i - 1);
        lemma_row_moves_place(g, m, c, i - 1, g.len() as int);
    }
}

/// Playing a move fills exactly one empty cell and keeps the grid well formed.
pub proof fn lemma_place_fills_one(g: Seq<Seq<Cell>>, m: Move, c: Cell)
    requires
        wf_grid(g),
        is_open(g, m),
        c != Cell::Empty,
    ensures
        wf_grid(place(g, m, c)),
        num_empty(place(g, m, c)) == num_empty(g) - 1,
{
    let h = place(g, m, c);
    assert forall|i: int| 0 <= i < h.len() implies #[trigger] h[i].len() == h.len() by {
        if i != m.0 {
            assert(h[i] == g[i]);
        }
    }
    lemma_rows_moves_place(g, m, c, g.len() as int);
}

/// Law: undoing a move right after playing it gives back the board it was
/// played on.
pub proof fn lemma_undo_after_apply(g: Seq<Seq<Cell>>, m: Move, p: Player)
    requires
        wf_grid(g),
        is_open(g, m),
    ensures
        place(place(g, m, p.piece()), m, Cell::Empty) == g,
{
    let h = place(place(g, m, p.piece()), m, Cell::Empty);
    assert(h[m.0 as int] =~= g[m.0 as int]);
    assert(h =~= g);
}

/// The cell with `X` and `O` exchanged (empty cells and walls stay).
pub open spec fn swap_cell(c: Cell) -> Cell {
    match c {
        Cell::X => Cell::O,
        Cell::O => Cell::X,
        other => other,
    }
}

/// The grid with every `X` and `O` exchanged.
pub open spec fn swap_grid(g: Seq<Seq<Cell>>) -> Seq<Seq<Cell>> {
    Seq::new(g.len(), |i: int| Seq::new(g[i].len(), |j: int| swap_cell(g[i][j])))
}

/// The sum of the negated terms is the negated sum.
pub proof fn lemma_sum_neg(n: int, f: spec_fn(int) -> int, g: spec_fn(int) -> int)
    requires
        forall|k: int| 0 <= k < n ==> #[trigger] f(k) == -g(k),
    ensures
        sum(n, f) == -sum(n, g),
    decreases n,
{
    if n > 0 {
        lemma_sum_neg(n - 1, f, g);
    }
}

/// Exchanging `X` and `O` keeps the grid well formed and the lines of three
/// in place, with their cells exchanged.
pub proof fn lemma_swap_window(g: Seq<Seq<Cell>>, i: int, j: int, d: int)
    requires
        wf_grid(g),
    ensures
        wf_grid(swap_grid(g)),
        swap_grid(g).len() == g.len(),
        window(swap_grid(g), i, j, d) == match window(g, i, j, d) {
            Some((a, b, c)) => Some((swap_cell(a), swap_cell(b), swap_cell(c))),
            None => None,
        },
{
    let h = swap_grid(g);
    assert forall|k: int| 0 <= k < h.len() implies #[trigger] h[k].len() == h.len() by {
        assert(g[k].len() == g.len());
    }
}

/// Exchanging `X` and `O` leaves the empty cells, hence the legal moves, as
/// they are.
pub proof fn lemma_swap_moves(g: Seq<Seq<Cell>>)
    requires
        wf_grid(g),
    ensures
        moves_of(swap_grid(g)) == moves_of(g),
        num_empty(swap_grid(g)) == num_empty(g),
{
    lemma_swap_rows_moves(g, g.len() as int);
}

proof fn lemma_swap_row_moves(g: Seq<Seq<Cell>>, i: int, j: int)
    requires
        wf_grid(g),
        0 <= i < g.len(),
        0 <= j <= g.len(),
    ensures
        row_moves(swap_grid(g), i, j) == row_moves(g, i, j),
    decreases j,
{
    if j > 0 {
        lemma_swap_row_moves(g, i, j - 1);
        assert(swap_grid(g)[i][j - 1] == swap_cell(g[i][j - 1]));
    }
}

proof fn lemma_swap_rows_moves(g: Seq<Seq<Cell>>, i: int)
    requires
        wf_grid(g),
        0 <= i <= g.len(),
    ensures
        rows_moves(swap_grid(g), i) == rows_moves(g, i),
    decreases i,
{
    if i > 0 {
        lemma_swap_rows_moves(g, i - 1);
        lemma_swap_row_moves(g, i - 1, g.len() as int);
    }
}

/// Law: exchanging `X` and `O` negates the score.
pub proof fn lemma_swap_score(g: Seq<Seq<Cell>>)
    requires
        wf_grid(g),
    ensures
        triplet_count(swap_grid(g), Cell::X) == triplet_count(g, Cell::O),
        triplet_count(swap_grid(g), Cell::O) == triplet_count(g, Cell::X),
        score_of(swap_grid(g)) == -score_of(g),
{
    let h = swap_grid(g);
    let n = g.len() as int;
    lemma_swap_window(g, 0, 0, 0);
    assert forall|c: Cell, i: int|
        (c == Cell::X || c == Cell::O) && 0 <= i < n implies #[trigger] triplets_in_row(h, c, i)
        == triplets_in_row(g, swap_cell(c), i) by {
        assert forall|j: int| 0 <= j < n implies #[trigger] triplets_from(h, c, i, j)
            == triplets_from(g, swap_cell(c), i, j) by {
            assert forall|d: int| 0 <= d < 4 implies #[trigger] triplet_at(h, c, i, j, d)
                == triplet_at(g, swap_cell(c), i, j, d) by {
                lemma_swap_window(g, i, j, d);
            }
            lemma_sum_ext(
                4,
                |d: int| triplet_at(h, c, i, j, d),
                |d: int| triplet_at(g, swap_cell(c), i, j, d),
            );
        }
        lemma_sum_ext(
            n,
            |j: int| triplets_from(h, c, i, j),
            |j: int| triplets_from(g, swap_cell(c), i, j),
        );
    }
    lemma_sum_ext(n, |i: int| triplets_in_row(h, Cell::X, i), |i: int| triplets_in_row(g, Cell::O, i));
    lemma_sum_ext(n, |i: int| triplets_in_row(h, Cell::O, i), |i: int| triplets_in_row(g, Cell::X, i));
}

/// The game board.
pub struct Board {
    cells: Vec<Vec<Cell>>,
}

impl View for Board {
    type V = Seq<Seq<Cell>>;

    closed spec fn view(&self) -> Seq<Seq<Cell>> {
        self.cells@.map_values(|r: Vec<Cell>| r@)
    }
}

impl Board {
    /// The board is square and no larger than `MAX_SIDE`.
    pub open spec fn wf(&self) -> bool {
        wf_grid(self@)
    }

    /// An `n x n` board of empty cells.
    pub fn new(n: usize) -> (b: Board)
        requires
            n <= MAX_SIDE,
        ensures
            b.wf(),
            b@.len() == n,
            forall|i: int, j: int| in_bounds(b@, i, j) ==> b@[i][j] == Cell::Empty,
    {
        let mut cells: Vec<Vec<Cell>> = Vec::new();
        for i in 0..n
            invariant
                cells@.len() == i,
                forall|k: int|
                    0 <= k < i ==> (#[trigger] cells@[k])@.len() == n && forall|j: int|
                        0 <= j < n ==> cells@[k]@[j] == Cell::Empty,
        {
            let mut row: Vec<Cell> = Vec::new();
            for j in 0..n
                invariant
                    row@.len() == j,
                    forall|k: int| 0 <= k < j ==> row@[k] == Cell::Empty,
            {
                row.push(Cell::Empty);
            }
            cells.push(row);
        }
        let b = Board { cells };
        assert(b@.len() == n);
        b
    }

    /// The board with the given cells, if they form a square grid of side at
    /// most `MAX_SIDE`.
    pub fn from_cells(cells: Vec<Vec<Cell>>) -> (r: Option<Board>)
        ensures
            match r {
                Some(b) => b.wf() && b@.len() == cells@.len() && forall|i: int|
                    0 <= i < cells@.len() ==> b@[i] == #[trigger] cells@[i]@,
                None => !wf_grid(cells@.map_values(|r: Vec<Cell>| r@)),
            },
    {
        let n = cells.len();
        let ghost g = cells@.map_values(|r: Vec<Cell>| r@);
        if n > MAX_SIDE {
            return None;
        }
        for i in 0..n
            invariant
                n == cells@.len(),
                g == cells@.map_values(|r: Vec<Cell>| r@),
                forall|k: int| 0 <= k < i ==> #[trigger] g[k].len() == n,
        {
            if cells[i].len() != n {
                assert(g[i as int].len() != g.len());
                return None;
            }
        }
        Some(Board { cells })
    }

    /// The cells, row by row.
    pub fn get_cells(&self) -> (r: &Vec<Vec<Cell>>)
        ensures
            r@.len() == self@.len(),
            forall|i: int| 0 <= i < r@.len() ==> (#[trigger] r@[i])@ == self@[i],
    {
        &self.cells
    }

    /// The side length.
    pub fn size(&self) -> (n: usize)
        ensures
            n == self@.len(),
    {
        self.cells.len()
    }

    /// The content of cell `(i, j)`.
    pub fn cell(&self, i: usize, j: usize) -> (c: Cell)
        requires
            self.wf(),
            in_bounds(self@, i as int, j as int),
        ensures
            c == self@[i as int][j as int],
    {
        self.cells[i][j]
    }

    /// The three cells of the line that starts at `(i, j)` and runs in
    /// direction `d`, if all three lie on the board.
    pub fn window_at(&self, i: i64, j: i64, d: usize) -> (r: Option<(Cell, Cell, Cell)>)
        requires
            self.wf(),
            d < 4,
            -4 <= i <= MAX_SIDE + 4,
            -4 <= j <= MAX_SIDE + 4,
        ensures
            r == window(self@, i as int, j as int, d as int),
    {
        let n = self.cells.len() as i64;
        let di: i64 = if d == 0 {
            0
        } else {
            1
        };
        let dj: i64 = if d == 0 {
            1
        } else if d == 1 {
            0
        } else if d == 2 {
            1
        } else {
            -1
        };
        let i3 = i + 2 * di;
        let j3 = j + 2 * dj;
        if i < 0 || j < 0 || i >= n || j >= n || i3 < 0 || j3 < 0 || i3 >= n || j3 >= n {
            return None;
        }
        let i2 = i + di;
        let j2 = j + dj;
        let a = self.cells[i as usize][j as usize];
        let b = self.cells[i2 as usize][j2 as usize];
        let c = self.cells[i3 as usize][j3 as usize];
        Some((a, b, c))
    }

    /// Number of lines of three `c` that start at `(i, j)`.
    fn count_triplets_from(&self, c: Cell, i: usize, j: usize) -> (r: i32)
        requires
            self.wf(),
            in_bounds(self@, i as int, j as int),
        ensures
            r == triplets_from(self@, c, i as int, j as int),
            0 <= r <= 4,
    {
        let ghost f = |d: int| triplet_at(self@, c, i as int, j as int, d);
        let mut count: i32 = 0;
        for d in 0..4usize
            invariant
                self.wf(),
                in_bounds(self@, i as int, j as int),
                f == (|d: int| triplet_at(self@, c, i as int, j as int, d)),
                count == sum(d as int, f),
                0 <= count <= d,
        {
            match self.window_at(i as i64, j as i64, d) {
                Some((a, b, e)) => {
                    if a == c && b == c && e == c {
                        count = count + 1;
                    }
                },
                None => {},
            }
        }
        count
    }

    /// Number of lines of three `c` on the board.
    fn count_triplets(&self, c: Cell) -> (r: i32)
        requires
            self.wf(),
        ensures
            r == triplet_count(self@, c),
            0 <= r <= 4 * self@.len() * self@.len(),
    {
        let n = self.cells.len();
        let ghost g = self@;
        let ghost rowf = |i: int| triplets_in_row(g, c, i);
        let mut count: i32 = 0;
        for i in 0..n
            invariant
                self.wf(),
                g == self@,
                n == g.len(),
                rowf == (|i: int| triplets_in_row(g, c, i)),
                count == sum(i as int, rowf),
                0 <= count <= 4 * n * i,
        {
            let ghost cellf = |j: int| triplets_from(g, c, i as int, j);
            let ghost before = count;
            assert(4 * n * i <= 4 * 50 * 50 - 4 * n) by (nonlinear_arith)
                requires
                    i < n,
                    n <= 50,
            ;
            for j in 0..n
                invariant
                    self.wf(),
                    g == self@,
                    n == g.len(),
                    i < n,
                    cellf == (|j: int| triplets_from(g, c, i as int, j)),
                    count == before + sum(j as int, cellf),
                    0 <= before <= 4 * n * i,
                    0 <= count - before <= 4 * j,
                    4 * n * i <= 4 * 50 * 50 - 4 * n,
            {
                let t = self.count_triplets_from(c, i, j);
                count = count + t;
            }
            assert(4 * n * i + 4 * n == 4 * n * (i + 1)) by (nonlinear_arith);
        }
        assert(4 * n * n == 4 * self@.len() * self@.len());
        count
    }

    /// The score: lines of `X` minus lines of `O`.
    pub fn score(&self) -> (r: i32)
        requires
            self.wf(),
        ensures
            r == score_of(self@),
    {
        let n = self.cells.len();
        assert(4 * n * n <= 4 * 50 * 50) by (nonlinear_arith)
            requires
                n <= 50,
        ;
        let x = self.count_triplets(Cell::X);
        let o = self.count_triplets(Cell::O);
        x - o
    }

    /// The game is over once no cell is empty.
    pub fn game_over(&self) -> (r: bool)
        requires
            self.wf(),
        ensures
            r == game_over_of(self@),
    {
        let n = self.cells.len();
        let ghost g = self@;
        for i in 0..n
            invariant
                self.wf(),
                g == self@,
                n == g.len(),
                rows_moves(g, i as int).len() == 0,
        {
            for j in 0..n
                invariant
                    self.wf(),
                    g == self@,
                    n == g.len(),
                    i < n,
                    rows_moves(g, i as int).len() == 0,
                    row_moves(g, i as int, j as int).len() == 0,
            {
                if self.cells[i][j] == Cell::Empty {
                    proof {
                        lemma_open_cell_has_move(g, i as int, j as int);
                    }
                    return false;
                }
            }
        }
        true
    }

    /// The legal moves: every empty cell, in row-major order.
    pub fn moves(&self) -> (r: Vec<Move>)
        requires
            self.wf(),
        ensures
            r@ == moves_of(self@),
    {
        let n = self.cells.len();
        let ghost g = self@;
        let mut r: Vec<Move> = Vec::new();
        for i in 0..n
            invariant
                self.wf(),
                g == self@,
                n == g.len(),
                r@ == rows_moves(g, i as int),
        {
            let ghost before = r@;
            for j in 0..n
                invariant
                    self.wf(),
                    g == self@,
                    n == g.len(),
                    i < n,
                    before == rows_moves(g, i as int),
                    r@ == before + row_moves(g, i as int, j as int),
            {
                if self.cells[i][j] == Cell::Empty {
                    r.push((i, j));
                    assert(r@ =~= before + row_moves(g, i as int, j + 1));
                }
            }
        }
        r
    }

    /// Plays `player` on the empty cell `m`.
    pub fn apply_move(&mut self, m: Move, player: Player)
        requires
            old(self).wf(),
            is_open(old(self)@, m),
        ensures
            final(self)@ == place(old(self)@, m, player.piece()),
            final(self).wf(),
    {
        let c = match player {
            Player::X => Cell::X,
            Player::O => Cell::O,
        };
        self.set_cell(m, c);
        proof {
            lemma_place_fills_one(old(self)@, m, player.piece());
        }
    }

    /// Takes back a move of `player` on cell `m`, which becomes empty again.
    pub fn undo_move(&mut self, m: Move, player: Player)
        requires
            old(self).wf(),
            in_bounds(old(self)@, m.0 as int, m.1 as int),
            old(self)@[m.0 as int][m.1 as int] == player.piece(),
        ensures
            final(self)@ == place(old(self)@, m, Cell::Empty),
            final(self).wf(),
    {
        self.set_cell(m, Cell::Empty);
    }

    fn set_cell(&mut self, m: Move, c: Cell)
        requires
            old(self).wf(),
            in_bounds(old(self)@, m.0 as int, m.1 as int),
        ensures
            final(self)@ == place(old(self)@, m, c),
            final(self).wf(),
    {
        let ghost g = old(self)@;
        let (i, j) = m;
        assert(self.cells@[i as int]@ == g[i as int]);
        self.cells[i][j] = c;
        proof {
            let h = self@;
            assert(h =~= place(g, m, c));
            assert forall|k: int| 0 <= k < h.len() implies #[trigger] h[k].len() == h.len() by {
                if k != i {
                    assert(h[k] == g[k]);
                }
            }
        }
    }
}

} // verus!
