//! An agent for larger boards: iterative deepening alpha-beta search with a
//! static evaluation at the search horizon, run against a deadline.
use vstd::prelude::*;
use crate::board::{
    dir_di, dir_dj, game_over_of, in_bounds, is_open, lemma_moves_open, lemma_place_fills_one,
    lemma_sum_bounds, lemma_undo_after_apply, moves_of, num_empty, row_moves, rows_moves, score_of,
    sum, window, wf_grid, Board, Cell, Move, Player, swap_cell, swap_grid, lemma_sum_ext,
    lemma_sum_neg, lemma_swap_window, lemma_swap_moves, lemma_swap_score,
};
use crate::clock::{
    duration_new, elapsed_nanos, instant_at_or_after, instant_checked_add, instant_now,
};
use crate::tic_tac_toe_3x3::{best3, child, lemma_score_bounds, minimax3};
use std::time::Instant;

verus! {

/// How often a cell value occurs among three cells.
pub open spec fn occurrences(a: Cell, b: Cell, c: Cell, x: Cell) -> int {
    (if a == x {
        1int
    } else {
        0int
    }) + (if b == x {
        1int
    } else {
        0int
    }) + (if c == x {
        1int
    } else {
        0int
    })
}

/// Value of one line of three cells: a line that both sides hold, or that
/// touches a wall, is worth nothing; two pieces and a gap are worth
/// `two_weight`, one piece and two gaps `one_weight`, positive for `X` and
/// negative for `O`.
pub open spec fn window_value(a: Cell, b: Cell, c: Cell, two_weight: int, one_weight: int) -> int {
    let xs = occurrences(a, b, c, Cell::X);
    let os = occurrences(a, b, c, Cell::O);
    let es = occurrences(a, b, c, Cell::Empty);
    if xs > 0 && os > 0 {
        0
    } else if xs + os + es < 3 {
        0
    } else if xs == 2 && es == 1 {
        two_weight
    } else if os == 2 && es == 1 {
        -two_weight
    } else if xs == 1 && es == 2 {
        one_weight
    } else if os == 1 && es == 2 {
        -one_weight
    } else {
        0
    }
}

/// 1 when the `t`-th line through `(i, j)` in direction `d` (starting `2 - t`
/// steps back) lies on the board and holds no wall, else 0.
pub open spec fn alive_at(g: Seq<Seq<Cell>>, i: int, j: int, d: int, t: int) -> int {
    match window(g, i + (t - 2) * dir_di(d), j + (t - 2) * dir_dj(d), d) {
        Some((a, b, c)) => if a != Cell::Wall && b != Cell::Wall && c != Cell::Wall {
            1
        } else {
            0
        },
        None => 0,
    }
}

/// Number of wall-free lines of three on the board that pass through `(i, j)`.
pub open spec fn alive_lines(g: Seq<Seq<Cell>>, i: int, j: int) -> int {
    sum(4, |d: int| alive_dir(g, i, j, d))
}

/// Number of wall-free lines of three in direction `d` through `(i, j)`.
pub open spec fn alive_dir(g: Seq<Seq<Cell>>, i: int, j: int, d: int) -> int {
    sum(3, |t: int| alive_at(g, i, j, d, t))
}

/// The position bonus of cell `(i, j)`: its live lines, counted for the side
/// that holds it.
pub open spec fn alive_bonus(g: Seq<Seq<Cell>>, i: int, j: int) -> int {
    match g[i][j] {
        Cell::X => alive_lines(g, i, j),
        Cell::O => -alive_lines(g, i, j),
        _ => 0,
    }
}

/// Sum of the position bonuses over the board.
pub open spec fn alive_term(g: Seq<Seq<Cell>>) -> int {
    sum(g.len() as int, |i: int| alive_row(g, i))
}

/// Sum of the position bonuses over row `i`.
pub open spec fn alive_row(g: Seq<Seq<Cell>>, i: int) -> int {
    sum(g.len() as int, |j: int| alive_bonus(g, i, j))
}

/// Value of the line that starts at `(i, j)` in direction `d` (0 off the board).
pub open spec fn window_score(g: Seq<Seq<Cell>>, i: int, j: int, d: int, two: int, one: int) -> int {
    match window(g, i, j, d) {
        Some((a, b, c)) => window_value(a, b, c, two, one),
        None => 0,
    }
}

/// Sum of the line values over the board.
pub open spec fn window_term(g: Seq<Seq<Cell>>, two: int, one: int) -> int {
    sum(g.len() as int, |i: int| window_row(g, i, two, one))
}

/// Sum of the values of the lines that start in row `i`.
pub open spec fn window_row(g: Seq<Seq<Cell>>, i: int, two: int, one: int) -> int {
    sum(g.len() as int, |j: int| window_cell(g, i, j, two, one))
}

/// Sum of the values of the lines that start at `(i, j)`.
pub open spec fn window_cell(g: Seq<Seq<Cell>>, i: int, j: int, two: int, one: int) -> int {
    sum(4, |d: int| window_score(g, i, j, d, two, one))
}

/// 1 when the line from `(i, j)` in direction `d` holds exactly two `target`
/// and one empty cell, else 0.
pub open spec fn open_two_at(g: Seq<Seq<Cell>>, target: Cell, i: int, j: int, d: int) -> int {
    match window(g, i, j, d) {
        Some((a, b, c)) => {
            let t = occurrences(a, b, c, target);
            let e = (if a != target && a == Cell::Empty {
                1int
            } else {
                0int
            }) + (if b != target && b == Cell::Empty {
                1int
            } else {
                0int
            }) + (if c != target && c == Cell::Empty {
                1int
            } else {
                0int
            });
            let blocked = (a != target && a != Cell::Empty) || (b != target && b != Cell::Empty)
                || (c != target && c != Cell::Empty);
            if !blocked && t == 2 && e == 1 {
                1
            } else {
                0
            }
        },
        None => 0,
    }
}

/// Number of lines one move away from a three-in-a-row of `target`.
pub open spec fn open_twos(g: Seq<Seq<Cell>>, target: Cell) -> int {
    sum(g.len() as int, |i: int| open_two_row(g, target, i))
}

/// Number of open twos of `target` that start in row `i`.
pub open spec fn open_two_row(g: Seq<Seq<Cell>>, target: Cell, i: int) -> int {
    sum(g.len() as int, |j: int| open_two_cell(g, target, i, j))
}

/// Number of open twos of `target` that start at `(i, j)`.
pub open spec fn open_two_cell(g: Seq<Seq<Cell>>, target: Cell, i: int, j: int) -> int {
    sum(4, |d: int| open_two_at(g, target, i, j, d))
}

/// The weights of completed lines, open twos and single pieces, which depend
/// on how full the board is.
pub open spec fn weights(empty: int, total: int) -> (int, int, int) {
    if empty > total * 2 / 3 {
        (100, 10, 2)
    } else if empty > total / 3 {
        (100, 20, 3)
    } else {
        (150, 40, 3)
    }
}

/// Weight of the squared open-two counts.
pub const FORK_FACTOR: i32 = 20;

/// The static evaluation of a board (positive favors `X`): with at most four
/// empty cells the score times 1000; otherwise the weighted score, the
/// position bonuses, the line values, and the squared open-two counts.
pub open spec fn heuristic_of(g: Seq<Seq<Cell>>) -> int {
    let e = num_empty(g);
    let n = g.len() as int;
    if e <= 4 {
        score_of(g) * 1000
    } else {
        let (tw, two, one) = weights(e, n * n);
        let x = open_twos(g, Cell::X);
        let o = open_twos(g, Cell::O);
        score_of(g) * tw + alive_term(g) + window_term(g, two, one) + x * x * FORK_FACTOR - o
            * o * FORK_FACTOR
    }
}

/// Bound on the absolute value of every static evaluation.
pub open spec fn heuristic_bound() -> int {
    2_010_000_000
}

/// Row and column step of direction `d`.
fn dir(d: usize) -> (r: (i64, i64))
    requires
        d < 4,
    ensures
        r.0 == dir_di(d as int),
        r.1 == dir_dj(d as int),
{
    if d == 0 {
        (0, 1)
    } else if d == 1 {
        (1, 0)
    } else if d == 2 {
        (1, 1)
    } else {
        (1, -1)
    }
}

/// Counts the wall-free lines of three through `(i, j)`.
pub fn alive_lines_through(board: &Board, i: usize, j: usize) -> (r: i32)
    requires
        board.wf(),
        in_bounds(board@, i as int, j as int),
    ensures
        r == alive_lines(board@, i as int, j as int),
        0 <= r <= 12,
{
    let ghost g = board@;
    let ghost outer = |d: int| alive_dir(g, i as int, j as int, d);
    let mut count: i32 = 0;
    for d in 0..4usize
        invariant
            board.wf(),
            g == board@,
            in_bounds(g, i as int, j as int),
            outer == (|d: int| alive_dir(g, i as int, j as int, d)),
            count == sum(d as int, outer),
            0 <= count <= 3 * d,
    {
        let (di, dj) = dir(d);
        let ghost inner = |t: int| alive_at(g, i as int, j as int, d as int, t);
        let ghost before = count;
        for t in 0..3usize
            invariant
                board.wf(),
                g == board@,
                in_bounds(g, i as int, j as int),
                d < 4,
                di == dir_di(d as int),
                dj == dir_dj(d as int),
                inner == (|t: int| alive_at(g, i as int, j as int, d as int, t)),
                count == before + sum(t as int, inner),
                0 <= before <= 3 * d,
                0 <= count - before <= t,
        {
            let offset: i64 = t as i64 - 2;
            let i_start = i as i64 + offset * di;
            let j_start = j as i64 + offset * dj;
            match board.window_at(i_start, j_start, d) {
                Some((a, b, c)) => {
                    if a != Cell::Wall && b != Cell::Wall && c != Cell::Wall {
                        count = count + 1;
                    }
                },
                None => {},
            }
        }
    }
    count
}

/// Counts the lines one move away from a three-in-a-row of `target`.
pub fn count_open_twos(board: &Board, target: &Cell) -> (r: i32)
    requires
        board.wf(),
    ensures
        r == open_twos(board@, *target),
        0 <= r <= 4 * board@.len() * board@.len(),
{
    let n = board.size();
    let ghost g = board@;
    let ghost tg = *target;
    let ghost rowf = |i: int| open_two_row(g, tg, i);
    let mut count: i32 = 0;
    for i in 0..n
        invariant
            board.wf(),
            g == board@,
            n == g.len(),
            tg == *target,
            rowf == (|i: int| open_two_row(g, tg, i)),
            count == sum(i as int, rowf),
            0 <= count <= 4 * n * i,
    {
        let ghost cellf = |j: int| open_two_cell(g, tg, i as int, j);
        let ghost before = count;
        assert(4 * n * i <= 4 * 50 * 50 - 4 * n) by (nonlinear_arith)
            requires
                i < n,
                n <= 50,
        ;
        for j in 0..n
            invariant
                board.wf(),
                g == board@,
                n == g.len(),
                i < n,
                tg == *target,
                cellf == (|j: int| open_two_cell(g, tg, i as int, j)),
                count == before + sum(j as int, cellf),
                0 <= before <= 4 * n * i,
                4 * n * i <= 4 * 50 * 50 - 4 * n,
                0 <= count - before <= 4 * j,
        {
            let ghost dirf = |d: int| open_two_at(g, tg, i as int, j as int, d);
            let ghost before_cell = count;
            for d in 0..4usize
                invariant
                    board.wf(),
                    g == board@,
                    n == g.len(),
                    i < n,
                    j < n,
                    tg == *target,
                    dirf == (|d: int| open_two_at(g, tg, i as int, j as int, d)),
                    count == before_cell + sum(d as int, dirf),
                    0 <= before_cell - before <= 4 * j,
                    0 <= before <= 4 * n * i,
                    4 * n * i <= 4 * 50 * 50 - 4 * n,
                    0 <= count - before_cell <= d,
            {
                match board.window_at(i as i64, j as i64, d) {
                    Some((a, b, c)) => {
                        let mut t: i32 = 0;
                        let mut e: i32 = 0;
                        let mut blocked = false;
                        if a == *target {
                            t = t + 1;
                        } else if a == Cell::Empty {
                            e = e + 1;
                        } else {
                            blocked = true;
                        }
                        if !blocked {
                            if b == *target {
                                t = t + 1;
                            } else if b == Cell::Empty {
                                e = e + 1;
                            } else {
                                blocked = true;
                            }
                        }
                        if !blocked {
                            if c == *target {
                                t = t + 1;
                            } else if c == Cell::Empty {
                                e = e + 1;
                            } else {
                                blocked = true;
                            }
                        }
                        if !blocked && t == 2 && e == 1 {
                            count = count + 1;
                        }
                    },
                    None => {},
                }
            }
        }
        assert(4 * n * i + 4 * n == 4 * n * (i + 1)) by (nonlinear_arith);
    }
    count
}

/// The value of one line of three cells (see `window_value`).
pub fn eval_window_weighted(a: &Cell, b: &Cell, c: &Cell, two_weight: i32, one_weight: i32) -> (r: i32)
    requires
        occurrences(*a, *b, *c, Cell::O) == 2 && occurrences(*a, *b, *c, Cell::Empty) == 1
            ==> i32::MIN < two_weight,
        occurrences(*a, *b, *c, Cell::O) == 1 && occurrences(*a, *b, *c, Cell::Empty) == 2
            ==> i32::MIN < one_weight,
    ensures
        r == window_value(*a, *b, *c, two_weight as int, one_weight as int),
{
    let mut x_count: usize = 0;
    let mut o_count: usize = 0;
    let mut empty_count: usize = 0;
    if *a == Cell::X {
        x_count = x_count + 1;
    }
    if *b == Cell::X {
        x_count = x_count + 1;
    }
    if *c == Cell::X {
        x_count = x_count + 1;
    }
    if *a == Cell::O {
        o_count = o_count + 1;
    }
    if *b == Cell::O {
        o_count = o_count + 1;
    }
    if *c == Cell::O {
        o_count = o_count + 1;
    }
    if *a == Cell::Empty {
        empty_count = empty_count + 1;
    }
    if *b == Cell::Empty {
        empty_count = empty_count + 1;
    }
    if *c == Cell::Empty {
        empty_count = empty_count + 1;
    }
    if x_count > 0 && o_count > 0 {
        return 0;
    }
    if x_count + o_count + empty_count < 3 {
        return 0;
    }
    if x_count == 2 && empty_count == 1 {
        return two_weight;
    }
    if o_count == 2 && empty_count == 1 {
        return -two_weight;
    }
    if x_count == 1 && empty_count == 2 {
        return one_weight;
    }
    if o_count == 1 && empty_count == 2 {
        return -one_weight;
    }
    0
}

/// Counts the empty cells.
fn count_empty(board: &Board) -> (r: usize)
    requires
        board.wf(),
    ensures
        r == num_empty(board@),
{
    let n = board.size();
    let ghost g = board@;
    let mut count: usize = 0;
    for i in 0..n
        invariant
            board.wf(),
            g == board@,
            n == g.len(),
            count == rows_moves(g, i as int).len(),
            count <= n * i,
    {
        let ghost before = count;
        assert(n * i + n == n * (i + 1)) by (nonlinear_arith);
        assert(n * (i + 1) <= 50 * 50) by (nonlinear_arith)
            requires
                i < n,
                n <= 50,
        ;
        for j in 0..n
            invariant
                board.wf(),
                g == board@,
                n == g.len(),
                i < n,
                before == rows_moves(g, i as int).len(),
                count == before + row_moves(g, i as int, j as int).len(),
                before <= n * i,
                n * i + n <= 50 * 50,
                count - before <= j,
        {
            if board.cell(i, j) == Cell::Empty {
                count = count + 1;
            }
        }
    }
    count
}

/// Sums the position bonuses of all cells.
fn alive_total(board: &Board) -> (r: i32)
    requires
        board.wf(),
    ensures
        r == alive_term(board@),
        -(12 * board@.len() * board@.len()) <= r <= 12 * board@.len() * board@.len(),
{
    let n = board.size();
    let ghost g = board@;
    let ghost rowf = |i: int| alive_row(g, i);
    let mut total: i32 = 0;
    for i in 0..n
        invariant
            board.wf(),
            g == board@,
            n == g.len(),
            rowf == (|i: int| alive_row(g, i)),
            total == sum(i as int, rowf),
            -(12 * n * i) <= total <= 12 * n * i,
    {
        let ghost cellf = |j: int| alive_bonus(g, i as int, j);
        let ghost before = total;
        assert(12 * n * i <= 12 * 50 * 50 - 12 * n) by (nonlinear_arith)
            requires
                i < n,
                n <= 50,
        ;
        for j in 0..n
            invariant
                board.wf(),
                g == board@,
                n == g.len(),
                i < n,
                cellf == (|j: int| alive_bonus(g, i as int, j)),
                total == before + sum(j as int, cellf),
                -(12 * n * i) <= before <= 12 * n * i,
                12 * n * i <= 12 * 50 * 50 - 12 * n,
                -(12 * j) <= total - before <= 12 * j,
        {
            let bonus = alive_lines_through(board, i, j);
            match board.cell(i, j) {
                Cell::X => total = total + bonus,
                Cell::O => total = total - bonus,
                _ => {},
            }
        }
        assert(12 * n * i + 12 * n == 12 * n * (i + 1)) by (nonlinear_arith);
    }
    total
}

/// Sums the line values over the board.
fn window_total(board: &Board, two_weight: i32, one_weight: i32) -> (r: i32)
    requires
        board.wf(),
        0 <= two_weight <= 40,
        0 <= one_weight <= 40,
    ensures
        r == window_term(board@, two_weight as int, one_weight as int),
        -(160 * board@.len() * board@.len()) <= r <= 160 * board@.len() * board@.len(),
{
    let n = board.size();
    let ghost g = board@;
    let ghost tw = two_weight as int;
    let ghost ow = one_weight as int;
    let ghost rowf = |i: int| window_row(g, i, tw, ow);
    let mut total: i32 = 0;
    for i in 0..n
        invariant
            board.wf(),
            g == board@,
            n == g.len(),
            tw == two_weight,
            ow == one_weight,
            0 <= two_weight <= 40,
            0 <= one_weight <= 40,
            rowf == (|i: int| window_row(g, i, tw, ow)),
            total == sum(i as int, rowf),
            -(160 * n * i) <= total <= 160 * n * i,
    {
        let ghost cellf = |j: int| window_cell(g, i as int, j, tw, ow);
        let ghost before = total;
        assert(160 * n * i <= 160 * 50 * 50 - 160 * n) by (nonlinear_arith)
            requires
                i < n,
                n <= 50,
        ;
        for j in 0..n
            invariant
                board.wf(),
                g == board@,
                n == g.len(),
                i < n,
                tw == two_weight,
                ow == one_weight,
                0 <= two_weight <= 40,
                0 <= one_weight <= 40,
                cellf == (|j: int| window_cell(g, i as int, j, tw, ow)),
                total == before + sum(j as int, cellf),
                -(160 * n * i) <= before <= 160 * n * i,
                160 * n * i <= 160 * 50 * 50 - 160 * n,
                -(160 * j) <= total - before <= 160 * j,
        {
            let ghost dirf = |d: int| window_score(g, i as int, j as int, d, tw, ow);
            let ghost before_cell = total;
            for d in 0..4usize
                invariant
                    board.wf(),
                    g == board@,
                    n == g.len(),
                    i < n,
                    j < n,
                    tw == two_weight,
                    ow == one_weight,
                    0 <= two_weight <= 40,
                    0 <= one_weight <= 40,
                    dirf == (|d: int| window_score(g, i as int, j as int, d, tw, ow)),
                    total == before_cell + sum(d as int, dirf),
                    -(160 * j) <= before_cell - before <= 160 * j,
                    -(160 * n * i) <= before <= 160 * n * i,
                    160 * n * i <= 160 * 50 * 50 - 160 * n,
                    -(40 * d) <= total - before_cell <= 40 * d,
            {
                match board.window_at(i as i64, j as i64, d) {
                    Some((a, b, c)) => {
                        let v = eval_window_weighted(&a, &b, &c, two_weight, one_weight);
                        total = total + v;
                    },
                    None => {},
                }
            }
        }
        assert(160 * n * i + 160 * n == 160 * n * (i + 1)) by (nonlinear_arith);
    }
    total
}

/// Static evaluation of the board (see `heuristic_of`); records that it ran.
pub fn heuristic(board: &Board, heuristic_called: &mut bool) -> (r: i32)
    requires
        board.wf(),
    ensures
        r == heuristic_of(board@),
        *final(heuristic_called),
{
    *heuristic_called = true;
    let ghost g = board@;
    let n = board.size();
    proof {
        lemma_score_bounds(g);
        assert(n * n <= 2500) by (nonlinear_arith)
            requires
                n <= 50,
        ;
    }
    let total_cells = n * n;
    let empty_count = count_empty(board);
    if empty_count <= 4 {
        return board.score() * 1000;
    }
    let (triplet_weight, two_weight, one_weight): (i32, i32, i32) = if empty_count > total_cells
        * 2 / 3 {
        (100, 10, 2)
    } else if empty_count > total_cells / 3 {
        (100, 20, 3)
    } else {
        (150, 40, 3)
    };
    let mut score: i32 = board.score() * triplet_weight;
    let alive = alive_total(board);
    let windows = window_total(board, two_weight, one_weight);
    let x_threats = count_open_twos(board, &Cell::X);
    let o_threats = count_open_twos(board, &Cell::O);
    proof {
        let nn = (n * n) as int;
        assert(12 * n * n <= 12 * 2500) by (nonlinear_arith)
            requires
                n * n <= 2500,
        ;
        assert(160 * n * n <= 160 * 2500) by (nonlinear_arith)
            requires
                n * n <= 2500,
        ;
        assert(4 * n * n <= 10000) by (nonlinear_arith)
            requires
                n * n <= 2500,
        ;
        assert(x_threats * x_threats <= 100_000_000) by (nonlinear_arith)
            requires
                0 <= x_threats <= 10000,
        ;
        assert(o_threats * o_threats <= 100_000_000) by (nonlinear_arith)
            requires
                0 <= o_threats <= 10000,
        ;
        assert(0 <= x_threats * x_threats) by (nonlinear_arith);
        assert(0 <= o_threats * o_threats) by (nonlinear_arith);
    }
    score = score + alive;
    score = score + windows;
    score = score + x_threats * x_threats * FORK_FACTOR;
    score = score - o_threats * o_threats * FORK_FACTOR;
    score
}

/// Every static evaluation lies within `heuristic_bound()`.
pub proof fn lemma_heuristic_bounds(g: Seq<Seq<Cell>>)
    requires
        wf_grid(g),
    ensures
        -heuristic_bound() <= heuristic_of(g) <= heuristic_bound(),
{
    let n = g.len() as int;
    lemma_score_bounds(g);
    assert(n * n <= 2500) by (nonlinear_arith)
        requires
            0 <= n <= 50,
    ;
    // position bonuses
    assert forall|i: int| 0 <= i < n implies -12 * n <= #[trigger] alive_row(g, i) <= 12 * n by {
        assert forall|j: int| 0 <= j < n implies -12 <= #[trigger] alive_bonus(g, i, j) <= 12 by {
            assert forall|d: int| 0 <= d < 4 implies 0 <= #[trigger] alive_dir(g, i, j, d) <= 3 by {
                lemma_sum_bounds(3, |t: int| alive_at(g, i, j, d, t), 0, 1);
            }
            lemma_sum_bounds(4, |d: int| alive_dir(g, i, j, d), 0, 3);
        }
        lemma_sum_bounds(n, |j: int| alive_bonus(g, i, j), -12, 12);
    }
    lemma_sum_bounds(n, |i: int| alive_row(g, i), -12 * n, 12 * n);
    assert(n * (12 * n) == 12 * (n * n) && n * (-12 * n) == -12 * (n * n)) by (nonlinear_arith);
    // open twos
    assert forall|c: Cell| #![trigger open_twos(g, c)] 0 <= open_twos(g, c) <= 4 * (n * n) by {
        assert forall|i: int| 0 <= i < n implies 0 <= #[trigger] open_two_row(g, c, i) <= 4 * n by {
            assert forall|j: int| 0 <= j < n implies 0 <= #[trigger] open_two_cell(g, c, i, j)
                <= 4 by {
                lemma_sum_bounds(4, |d: int| open_two_at(g, c, i, j, d), 0, 1);
            }
            lemma_sum_bounds(n, |j: int| open_two_cell(g, c, i, j), 0, 4);
        }
        lemma_sum_bounds(n, |i: int| open_two_row(g, c, i), 0, 4 * n);
        assert(n * (4 * n) == 4 * (n * n)) by (nonlinear_arith);
    }
    let e = num_empty(g);
    let sc = score_of(g);
    if e > 4 {
        let (tw, two, one) = weights(e, n * n);
        // line values
        assert forall|i: int| 0 <= i < n implies -160 * n <= #[trigger] window_row(g, i, two, one)
            <= 160 * n by {
            assert forall|j: int| 0 <= j < n implies -160 <= #[trigger] window_cell(
                g,
                i,
                j,
                two,
                one,
            ) <= 160 by {
                lemma_sum_bounds(4, |d: int| window_score(g, i, j, d, two, one), -40, 40);
            }
            lemma_sum_bounds(n, |j: int| window_cell(g, i, j, two, one), -160, 160);
        }
        lemma_sum_bounds(n, |i: int| window_row(g, i, two, one), -160 * n, 160 * n);
        assert(n * (160 * n) == 160 * (n * n) && n * (-160 * n) == -160 * (n * n))
            by (nonlinear_arith);
        let x = open_twos(g, Cell::X);
        let o = open_twos(g, Cell::O);
        assert(0 <= x * x <= 100_000_000) by (nonlinear_arith)
            requires
                0 <= x <= 10000,
        ;
        assert(0 <= o * o <= 100_000_000) by (nonlinear_arith)
            requires
                0 <= o <= 10000,
        ;
        assert(-1_500_000 <= sc * tw <= 1_500_000) by (nonlinear_arith)
            requires
                -10000 <= sc <= 10000,
                0 <= tw <= 150,
        ;
    } else {
        assert(-10_000_000 <= sc * 1000 <= 10_000_000) by (nonlinear_arith)
            requires
                -10000 <= sc <= 10000,
        ;
    }
}

/// The value of the position when `p` is to move, searched `depth` moves
/// ahead: the score of a finished board, the static evaluation at the
/// horizon, otherwise the best value among the legal moves (highest for `X`,
/// lowest for `O`).
pub open spec fn value5(g: Seq<Seq<Cell>>, p: Player, depth: nat) -> int
    decreases depth, 1nat, 0nat,
{
    if game_over_of(g) {
        score_of(g)
    } else if depth == 0 {
        heuristic_of(g)
    } else {
        best5(g, p, depth, moves_of(g).len())
    }
}

/// The best value, for `p`, among the first `k` legal moves of `g`.
pub open spec fn best5(g: Seq<Seq<Cell>>, p: Player, depth: nat, k: nat) -> int
    decreases depth, 0nat, k,
{
    if k == 0 || depth == 0 {
        if p == Player::X {
            i32::MIN as int
        } else {
            i32::MAX as int
        }
    } else {
        let prev = best5(g, p, depth, (k - 1) as nat);
        let s = value5(child(g, moves_of(g)[k - 1], p), p.opponent(), (depth - 1) as nat);
        if p == Player::X {
            if s > prev {
                s
            } else {
                prev
            }
        } else {
            if s < prev {
                s
            } else {
                prev
            }
        }
    }
}

/// The value, searched one move less deep, of the board after `p` plays `m`.
pub open spec fn child_value(g: Seq<Seq<Cell>>, p: Player, depth: nat, m: Move) -> int {
    value5(child(g, m, p), p.opponent(), (depth - 1) as nat)
}

/// Whether `s` is at least as good for `p` as `t`.
pub open spec fn no_worse(p: Player, s: int, t: int) -> bool {
    if p == Player::X {
        s >= t
    } else {
        s <= t
    }
}

/// Every searched value lies within `heuristic_bound()`.
pub proof fn lemma_value5_bounds(g: Seq<Seq<Cell>>, p: Player, depth: nat)
    requires
        wf_grid(g),
    ensures
        -heuristic_bound() <= value5(g, p, depth) <= heuristic_bound(),
    decreases depth, 1nat, 0nat,
{
    if game_over_of(g) {
        lemma_score_bounds(g);
    } else if depth == 0 {
        lemma_heuristic_bounds(g);
    } else {
        lemma_best5_facts(g, p, depth, moves_of(g).len());
    }
}

/// Over at least one move, `best5` is the value of one of them, and no move
/// among them is better for `p`.
pub proof fn lemma_best5_facts(g: Seq<Seq<Cell>>, p: Player, depth: nat, k: nat)
    requires
        wf_grid(g),
        depth > 0,
        1 <= k <= moves_of(g).len(),
    ensures
        -heuristic_bound() <= best5(g, p, depth, k) <= heuristic_bound(),
        exists|t: int|
            0 <= t < k && child_value(g, p, depth, #[trigger] moves_of(g)[t]) == best5(
                g,
                p,
                depth,
                k,
            ),
        forall|t: int|
            0 <= t < k ==> no_worse(
                p,
                best5(g, p, depth, k),
                child_value(g, p, depth, #[trigger] moves_of(g)[t]),
            ),
    decreases depth, 0nat, k,
{
    let m = moves_of(g)[k - 1];
    lemma_moves_open(g);
    assert(is_open(g, m));
    lemma_place_fills_one(g, m, p.piece());
    lemma_value5_bounds(child(g, m, p), p.opponent(), (depth - 1) as nat);
    if k > 1 {
        lemma_best5_facts(g, p, depth, (k - 1) as nat);
        let prev = best5(g, p, depth, (k - 1) as nat);
        if child_value(g, p, depth, m) == best5(g, p, depth, k) {
            assert(moves_of(g)[k - 1] == m);
        } else {
            assert(best5(g, p, depth, k) == prev);
        }
    } else {
        assert(moves_of(g)[0] == m);
        assert(best5(g, p, depth, 0) == if p == Player::X {
            i32::MIN as int
        } else {
            i32::MAX as int
        });
        assert(best5(g, p, depth, 1) == child_value(g, p, depth, m));
    }
}

/// Law: off a finished board and above the horizon, the searched value is the
/// best child value for the side to move, and some legal move reaches it.
pub proof fn lemma_value5_is_best_child(g: Seq<Seq<Cell>>, p: Player, depth: nat)
    requires
        wf_grid(g),
        !game_over_of(g),
        depth > 0,
    ensures
        forall|m: Move|
            moves_of(g).contains(m) ==> no_worse(
                p,
                value5(g, p, depth),
                #[trigger] child_value(g, p, depth, m),
            ),
        exists|m: Move|
            moves_of(g).contains(m) && #[trigger] child_value(g, p, depth, m) == value5(
                g,
                p,
                depth,
            ),
{
    let k = moves_of(g).len();
    lemma_best5_facts(g, p, depth, k);
    let t = choose|t: int|
        0 <= t < k && child_value(g, p, depth, #[trigger] moves_of(g)[t]) == best5(g, p, depth, k);
    assert(moves_of(g).contains(moves_of(g)[t]));
    assert forall|m: Move| moves_of(g).contains(m) implies no_worse(
        p,
        value5(g, p, depth),
        #[trigger] child_value(g, p, depth, m),
    ) by {
        let u = choose|u: int| 0 <= u < k && moves_of(g)[u] == m;
        assert(no_worse(p, best5(g, p, depth, k), child_value(g, p, depth, moves_of(g)[u])));
    }
}

/// +1 for `X`, -1 for `O`.
pub open spec fn sign_of(p: Player) -> int {
    if p == Player::X {
        1
    } else {
        -1
    }
}

/// How promising move `m` is for `p`: the score gained by playing it minus the
/// score the opponent would gain on the same cell, seen from `p`'s side.
pub open spec fn priority(g: Seq<Seq<Cell>>, m: Move, p: Player) -> int {
    sign_of(p) * (score_of(child(g, m, p)) - score_of(child(g, m, p.opponent())))
}

/// The moves are in order of non-increasing priority for `p`.
pub open spec fn sorted_by_priority(g: Seq<Seq<Cell>>, ms: Seq<Move>, p: Player) -> bool {
    forall|a: int, b: int|
        0 <= a < b < ms.len() ==> priority(g, #[trigger] ms[a], p) >= priority(g, #[trigger] ms[b], p)
}

/// Inserting an element adds it to the multiset of elements.
proof fn lemma_insert_to_multiset<A>(s: Seq<A>, i: int, x: A)
    requires
        0 <= i <= s.len(),
    ensures
        s.insert(i, x).to_multiset() =~= s.to_multiset().insert(x),
{
    broadcast use vstd::seq_lib::group_to_multiset_ensures;

    let t = s.insert(i, x);
    assert(t.remove(i) =~= s);
    assert(t[i] == x);
    assert(t.contains(x));
    assert(t.to_multiset().count(x) > 0);
    assert(s.to_multiset() =~= t.to_multiset().remove(x));
    assert forall|y: A| #[trigger] t.to_multiset().count(y) == s.to_multiset().insert(x).count(y) by {
        if y == x {
            assert(s.to_multiset().count(x) == t.to_multiset().count(x) - 1);
        } else {
            assert(s.to_multiset().count(y) == t.to_multiset().count(y));
        }
    }
}

/// Sequences with the same multiset of elements have the same length and the
/// same members.
proof fn lemma_same_multiset_contains<A>(s: Seq<A>, t: Seq<A>, x: A)
    requires
        s.to_multiset() == t.to_multiset(),
    ensures
        s.len() == t.len(),
        s.contains(x) <==> t.contains(x),
{
    s.to_multiset_ensures();
    t.to_multiset_ensures();
    assert(s.to_multiset().count(x) == t.to_multiset().count(x));
    assert(s.contains(x) <==> s.to_multiset().count(x) > 0);
    assert(t.contains(x) <==> t.to_multiset().count(x) > 0);
}

/// Returns the moves ordered by decreasing priority for `player` (see
/// `priority`); moves of equal priority keep their order. The board is left
/// as it was.
#[verifier::rlimit(40)]
pub fn order_moves(board: &mut Board, moves: Vec<Move>, player: Player) -> (r: Vec<Move>)
    requires
        old(board).wf(),
        forall|k: int| 0 <= k < moves@.len() ==> is_open(old(board)@, #[trigger] moves@[k]),
    ensures
        final(board)@ == old(board)@,
        r@.to_multiset() == moves@.to_multiset(),
        sorted_by_priority(old(board)@, r@, player),
{
    let ghost g = board@;
    let opp = player.flip();
    let sign: i32 = match player {
        Player::X => 1,
        Player::O => -1,
    };
    let mut ordered: Vec<Move> = Vec::new();
    let mut priorities: Vec<i32> = Vec::new();
    let n = moves.len();
    assert(moves@.take(0) =~= ordered@);
    for idx in 0..n
        invariant
            board.wf(),
            board@ == g,
            wf_grid(g),
            n == moves@.len(),
            opp == player.opponent(),
            sign == sign_of(player),
            forall|k: int| 0 <= k < moves@.len() ==> is_open(g, #[trigger] moves@[k]),
            ordered@.len() == priorities@.len(),
            forall|k: int|
                0 <= k < ordered@.len() ==> #[trigger] priorities@[k] == priority(
                    g,
                    ordered@[k],
                    player,
                ),
            forall|a: int, b: int|
                0 <= a < b < priorities@.len() ==> #[trigger] priorities@[a]
                    >= #[trigger] priorities@[b],
            ordered@.to_multiset() == moves@.take(idx as int).to_multiset(),
    {
        let m = moves[idx];
        assert(is_open(g, m));
        proof {
            lemma_place_fills_one(g, m, player.piece());
            lemma_place_fills_one(g, m, opp.piece());
            lemma_undo_after_apply(g, m, player);
            lemma_undo_after_apply(g, m, opp);
            lemma_score_bounds(child(g, m, player));
            lemma_score_bounds(child(g, m, opp));
        }
        board.apply_move(m, player);
        let after_us = board.score();
        board.undo_move(m, player);
        board.apply_move(m, opp);
        let after_opp = board.score();
        board.undo_move(m, opp);
        let prio = sign * (after_us - after_opp);
        assert(prio == priority(g, m, player));
        let mut pos: usize = 0;
        while pos < ordered.len() && priorities[pos] >= prio
            invariant
                ordered@.len() == priorities@.len(),
                pos <= ordered@.len(),
                forall|k: int| 0 <= k < pos ==> #[trigger] priorities@[k] >= prio,
            decreases ordered@.len() - pos,
        {
            pos = pos + 1;
        }
        proof {
            lemma_insert_to_multiset(ordered@, pos as int, m);
            assert(moves@.take(idx + 1) =~= moves@.take(idx as int).push(m));
            vstd::seq_lib::to_multiset_build(moves@.take(idx as int), m);
        }
        let ghost old_prios = priorities@;
        ordered.insert(pos, m);
        priorities.insert(pos, prio);
        proof {
            assert forall|a: int, b: int|
                0 <= a < b < priorities@.len() implies #[trigger] priorities@[a]
                >= #[trigger] priorities@[b] by {
                if pos < old_prios.len() {
                    assert(old_prios[pos as int] < prio);
                }
                if a < pos && b == pos {
                } else if a == pos && b > pos {
                    assert(priorities@[b] == old_prios[b - 1]);
                    if b - 1 > pos {
                        assert(old_prios[pos as int] >= old_prios[b - 1]);
                    }
                } else if a < pos && b > pos {
                    assert(priorities@[b] == old_prios[b - 1]);
                } else if a > pos {
                    assert(priorities@[a] == old_prios[a - 1]);
                    assert(priorities@[b] == old_prios[b - 1]);
                }
            }
        }
    }
    proof {
        assert(moves@.take(n as int) =~= moves@);
        assert forall|a: int, b: int|
            0 <= a < b < ordered@.len() implies priority(g, #[trigger] ordered@[a], player)
            >= priority(g, #[trigger] ordered@[b], player) by {
            assert(priorities@[a] >= priorities@[b]);
        }
    }
    ordered
}

/// What an alpha-beta search with window `(alpha, beta)` may return for a
/// position of value `v`: `v` itself when the result lies strictly inside
/// the window, an upper bound of `v` when the result is at most `alpha`, a
/// lower bound when it is at least `beta`.
pub open spec fn ab_sound(s: int, alpha: int, beta: int, v: int) -> bool {
    &&& (alpha < s < beta ==> s == v)
    &&& (s <= alpha ==> v <= s)
    &&& (s >= beta ==> v >= s)
}


/// One step of the search loop, in numbers: `score` came back from a child
/// searched with the window `(alpha, beta)`, `cv` is that child's value and
/// `best`, `alpha`, `beta` are updated as the search does it. Either the
/// window closes, and the new best is a sound cut-off result, or the child's
/// value is no better than the new best, and a new best above `a0` (below
/// `b0` for `O`) is the child's value.
proof fn lemma_search_step(
    player: Player,
    a0: int,
    b0: int,
    alpha: int,
    beta: int,
    best: int,
    score: int,
    cv: int,
    v: int,
    best_new: int,
    alpha_new: int,
    beta_new: int,
)
    requires
        a0 < b0,
        alpha < beta,
        player == Player::X ==> beta == b0 && alpha == (if a0 > best {
            a0
        } else {
            best
        }),
        player == Player::O ==> alpha == a0 && beta == (if b0 < best {
            b0
        } else {
            best
        }),
        ab_sound(score, alpha, beta, cv),
        no_worse(player, v, cv),
        player == Player::X ==> best_new == (if score > best {
            score
        } else {
            best
        }) && alpha_new == (if best_new > alpha {
            best_new
        } else {
            alpha
        }) && beta_new == beta,
        player == Player::O ==> best_new == (if score < best {
            score
        } else {
            best
        }) && beta_new == (if best_new < beta {
            best_new
        } else {
            beta
        }) && alpha_new == alpha,
    ensures
        alpha_new >= beta_new ==> ab_sound(best_new, a0, b0, v) && !(a0 < best_new < b0)
            && best_new == score,
        alpha_new < beta_new ==> {
            &&& no_worse(player, best_new, cv)
            &&& player == Player::X ==> beta_new == b0 && alpha_new == (if a0 > best_new {
                a0
            } else {
                best_new
            })
            &&& player == Player::O ==> alpha_new == a0 && beta_new == (if b0 < best_new {
                b0
            } else {
                best_new
            })
            &&& (best_new != best ==> best_new == score)
            &&& (player == Player::X && best_new > a0 && best_new != best) ==> cv == best_new
            &&& (player == Player::O && best_new < b0 && best_new != best) ==> cv == best_new
            &&& no_worse(player, best_new, best)
        },
{
}

/// The end of the search loop: every move has been searched without closing
/// the window. Then the best result is a sound alpha-beta result.
proof fn lemma_search_done(
    g: Seq<Seq<Cell>>,
    player: Player,
    depth: nat,
    ordered: Seq<Move>,
    a0: int,
    b0: int,
    alpha: int,
    beta: int,
    best: int,
    best_move: Move,
)
    requires
        wf_grid(g),
        !game_over_of(g),
        depth > 0,
        ordered.to_multiset() == moves_of(g).to_multiset(),
        ordered.contains(best_move),
        alpha < beta,
        player == Player::X ==> beta == b0 && alpha == (if a0 > best {
            a0
        } else {
            best
        }),
        player == Player::O ==> alpha == a0 && beta == (if b0 < best {
            b0
        } else {
            best
        }),
        forall|t: int|
            0 <= t < ordered.len() ==> no_worse(
                player,
                best,
                child_value(g, player, depth, #[trigger] ordered[t]),
            ),
        player == Player::X && best > a0 ==> child_value(g, player, depth, best_move) == best,
        player == Player::O && best < b0 ==> child_value(g, player, depth, best_move) == best,
    ensures
        ab_sound(best, a0, b0, value5(g, player, depth)),
        a0 < best < b0 ==> child_value(g, player, depth, best_move) == best,
{
    lemma_value5_is_best_child(g, player, depth);
    let v = value5(g, player, depth);
    let ms = choose|ms: Move| moves_of(g).contains(ms) && #[trigger] child_value(g, player, depth, ms) == v;
    lemma_same_multiset_contains(ordered, moves_of(g), ms);
    let t = choose|t: int| 0 <= t < ordered.len() && ordered[t] == ms;
    assert(no_worse(player, best, child_value(g, player, depth, ordered[t])));
    lemma_same_multiset_contains(ordered, moves_of(g), best_move);
    assert(no_worse(player, v, child_value(g, player, depth, best_move)));
}

/// Alpha-beta search `depth` moves ahead with the window `(alpha, beta)`.
/// Reads the clock and hands whether the deadline has passed to
/// `search_node`: `None` once it has; otherwise the result (see `ab_sound`)
/// and the move that reaches it (`(0, 0)` on a finished board or at the
/// horizon). Sets `heuristic_called` when the static evaluation ran: a
/// finished search ran it exactly when `depth` is below the number of empty
/// cells. The board is left as it was.
pub fn minimax(
    board: &mut Board,
    player: Player,
    depth: u32,
    alpha: i32,
    beta: i32,
    deadline: &Instant,
    heuristic_called: &mut bool,
) -> (r: Option<(i32, usize, usize)>)
    requires
        old(board).wf(),
        alpha < beta,
    ensures
        final(board)@ == old(board)@,
        *old(heuristic_called) ==> *final(heuristic_called),
        depth >= num_empty(old(board)@) ==> *final(heuristic_called) == *old(heuristic_called),
        r is Some && depth < num_empty(old(board)@) ==> *final(heuristic_called),
        game_over_of(old(board)@) ==> (r is None || r == Some(
            (score_of(old(board)@) as i32, 0usize, 0usize),
        )),
        !game_over_of(old(board)@) && depth == 0 ==> (r is None || r == Some(
            (heuristic_of(old(board)@) as i32, 0usize, 0usize),
        )),
        match r {
            Some((s, i, j)) => {
                &&& ab_sound(s as int, alpha as int, beta as int, value5(old(board)@, player, depth as nat))
                &&& (!game_over_of(old(board)@) && depth > 0) ==> {
                    &&& is_open(old(board)@, (i, j))
                    &&& (alpha < s < beta ==> child_value(old(board)@, player, depth as nat, (i, j)) == s)
                }
            },
            None => true,
        },
    decreases depth, 1nat,
{
    let now = instant_now();
    let past_deadline = instant_at_or_after(&now, deadline);
    search_node(board, player, depth, alpha, beta, deadline, heuristic_called, past_deadline)
}

/// One node of the alpha-beta search, given whether the clock reading that
/// `minimax` took here was at or past the deadline (`past_deadline`).
/// Past the deadline it gives up at once with `None`. Otherwise a finished
/// board gives `(score, 0, 0)` and the horizon gives `(evaluation, 0, 0)`;
/// any other node searches each move in priority order (see `order_moves`),
/// the replies through `minimax`, and gives `None` if one of them ran out of
/// time. Every result is as `minimax` states, and the board is left as it
/// was.
pub fn search_node(
    board: &mut Board,
    player: Player,
    depth: u32,
    alpha: i32,
    beta: i32,
    deadline: &Instant,
    heuristic_called: &mut bool,
    past_deadline: bool,
) -> (r: Option<(i32, usize, usize)>)
    requires
        old(board).wf(),
        alpha < beta,
    ensures
        final(board)@ == old(board)@,
        *old(heuristic_called) ==> *final(heuristic_called),
        depth >= num_empty(old(board)@) ==> *final(heuristic_called) == *old(heuristic_called),
        r is Some && depth < num_empty(old(board)@) ==> *final(heuristic_called),
        game_over_of(old(board)@) ==> (r is None || r == Some(
            (score_of(old(board)@) as i32, 0usize, 0usize),
        )),
        !game_over_of(old(board)@) && depth == 0 ==> (r is None || r == Some(
            (heuristic_of(old(board)@) as i32, 0usize, 0usize),
        )),
        match r {
            Some((s, i, j)) => {
                &&& ab_sound(s as int, alpha as int, beta as int, value5(old(board)@, player, depth as nat))
                &&& (!game_over_of(old(board)@) && depth > 0) ==> {
                    &&& is_open(old(board)@, (i, j))
                    &&& (alpha < s < beta ==> child_value(old(board)@, player, depth as nat, (i, j)) == s)
                }
            },
            None => true,
        },
        past_deadline ==> r is None,
        !past_deadline && game_over_of(old(board)@) ==> r == Some(
            (score_of(old(board)@) as i32, 0usize, 0usize),
        ),
        !past_deadline && !game_over_of(old(board)@) && depth == 0 ==> r == Some(
            (heuristic_of(old(board)@) as i32, 0usize, 0usize),
        ),
    decreases depth, 0nat,
{
    let ghost g = board@;
    let ghost a0 = alpha as int;
    let ghost b0 = beta as int;
    let ghost hc0 = *heuristic_called;
    if past_deadline {
        return None;
    }
    if board.game_over() {
        return Some((board.score(), 0, 0));
    }
    if depth == 0 {
        return Some((heuristic(board, heuristic_called), 0, 0));
    }
    let moves = board.moves();
    proof {
        lemma_moves_open(g);
        lemma_value5_is_best_child(g, player, depth as nat);
    }
    let ordered = order_moves(board, moves, player);
    proof {
        lemma_same_multiset_contains(ordered@, moves_of(g), moves_of(g)[0]);
        assert forall|k: int| 0 <= k < ordered@.len() implies is_open(g, #[trigger] ordered@[k]) by {
            assert(ordered@.contains(ordered@[k]));
            lemma_same_multiset_contains(ordered@, moves_of(g), ordered@[k]);
            let u = choose|u: int| 0 <= u < moves_of(g).len() && moves_of(g)[u] == ordered@[k];
            assert(is_open(g, moves_of(g)[u]));
        }
        if moves_of(g).len() == 0 {
            assert(game_over_of(g));
        }
    }
    let mut alpha_cur = alpha;
    let mut beta_cur = beta;
    let mut best_move = ordered[0];
    let mut best_score: i32 = match player {
        Player::X => i32::MIN,
        Player::O => i32::MAX,
    };
    let n = ordered.len();
    let mut idx: usize = 0;
    while idx < n
        invariant
            board.wf(),
            board@ == g,
            old(board)@ == g,
            wf_grid(g),
            !game_over_of(g),
            depth > 0,
            n == ordered@.len(),
            idx <= n,
            ordered@.to_multiset() == moves_of(g).to_multiset(),
            forall|k: int| 0 <= k < n ==> is_open(g, #[trigger] ordered@[k]),
            exists|k: int| 0 <= k < n && ordered@[k] == best_move,
            alpha_cur < beta_cur,
            a0 == alpha,
            b0 == beta,
            player == Player::X ==> beta_cur == b0 && alpha_cur == (if a0 > best_score {
                a0
            } else {
                best_score as int
            }),
            player == Player::O ==> alpha_cur == a0 && beta_cur == (if b0 < best_score {
                b0
            } else {
                best_score as int
            }),
            forall|t: int|
                0 <= t < idx ==> no_worse(
                    player,
                    best_score as int,
                    child_value(g, player, depth as nat, #[trigger] ordered@[t]),
                ),
            player == Player::X && best_score > a0 ==> child_value(g, player, depth as nat, best_move)
                == best_score,
            player == Player::O && best_score < b0 ==> child_value(g, player, depth as nat, best_move)
                == best_score,
            hc0 ==> *heuristic_called,
            depth >= num_empty(g) ==> *heuristic_called == hc0,
            idx > 0 && depth < num_empty(g) ==> *heuristic_called,
            hc0 == *old(heuristic_called),
            !past_deadline,
        decreases n - idx,
    {
        let m = ordered[idx];
        assert(is_open(g, m));
        proof {
            lemma_place_fills_one(g, m, player.piece());
            lemma_undo_after_apply(g, m, player);
        }
        board.apply_move(m, player);
        let result = minimax(
            board,
            player.flip(),
            depth - 1,
            alpha_cur,
            beta_cur,
            deadline,
            heuristic_called,
        );
        board.undo_move(m, player);
        let (score, _, _) = match result {
            Some(r) => r,
            None => return None,
        };
        let ghost alpha_old = alpha_cur;
        let ghost beta_old = beta_cur;
        let ghost best_old = best_score;
        let ghost best_move_old = best_move;
        match player {
            Player::X => {
                if score > best_score {
                    best_score = score;
                    best_move = m;
                }
                if best_score > alpha_cur {
                    alpha_cur = best_score;
                }
            },
            Player::O => {
                if score < best_score {
                    best_score = score;
                    best_move = m;
                }
                if best_score < beta_cur {
                    beta_cur = best_score;
                }
            },
        }
        proof {
            assert(ordered@[idx as int] == m);
            assert(ordered@.contains(m));
            lemma_same_multiset_contains(ordered@, moves_of(g), m);
            lemma_value5_is_best_child(g, player, depth as nat);
            lemma_search_step(
                player,
                a0,
                b0,
                alpha_old as int,
                beta_old as int,
                best_old as int,
                score as int,
                child_value(g, player, depth as nat, m),
                value5(g, player, depth as nat),
                best_score as int,
                alpha_cur as int,
                beta_cur as int,
            );
            if best_move == m {
                assert(ordered@[idx as int] == best_move);
            } else {
                assert(best_move == best_move_old);
            }
            assert(exists|k: int| 0 <= k < n && ordered@[k] == best_move);
            let kb = choose|k: int| 0 <= k < n && ordered@[k] == best_move;
            assert(is_open(g, ordered@[kb]));
        }
        if alpha_cur >= beta_cur {
            return Some((best_score, best_move.0, best_move.1));
        }
        idx = idx + 1;
    }
    proof {
        let kb = choose|k: int| 0 <= k < n && ordered@[k] == best_move;
        assert(ordered@.contains(best_move));
        lemma_search_done(
            g,
            player,
            depth as nat,
            ordered@,
            a0,
            b0,
            alpha_cur as int,
            beta_cur as int,
            best_score as int,
            best_move,
        );
    }
    Some((best_score, best_move.0, best_move.1))
}

/// The search budget, nine tenths of `time_limit` milliseconds, in
/// nanoseconds.
pub open spec fn budget_nanos(time_limit: int) -> int {
    time_limit * 900_000
}

/// The search budget split into whole seconds and the remaining nanoseconds.
pub fn budget_parts(time_limit: u64) -> (r: (u64, u32))
    ensures
        r.0 * 1_000_000_000 + r.1 == budget_nanos(time_limit as int),
        r.1 < 1_000_000_000,
{
    let total: u128 = time_limit as u128 * 900_000;
    let secs = total / 1_000_000_000;
    let nanos = total % 1_000_000_000;
    assert(secs <= u64::MAX) by (nonlinear_arith)
        requires
            secs == total / 1_000_000_000,
            total == time_limit * 900_000,
            time_limit <= u64::MAX,
    ;
    (secs as u64, nanos as u32)
}

/// Whether another, deeper search should start. All times are nanoseconds
/// since the search began: `now` is the present, `deadline` the end of the
/// budget, `iter_start` the start of the search that just finished. Search
/// on only if that search ran the static evaluation (a deeper one may find
/// more), the deadline has not come, and three times the last search's
/// duration still fits in the time that remains.
pub open spec fn keep_deepening_spec(evaluated: bool, now: int, deadline: int, iter_start: int) -> bool {
    let last = if now >= iter_start {
        now - iter_start
    } else {
        0
    };
    evaluated && now < deadline && 3 * last <= deadline - now
}

/// Decides whether to start a deeper search (see `keep_deepening_spec`).
pub fn keep_deepening(evaluated: bool, now: u128, deadline: u128, iter_start: u128) -> (r: bool)
    ensures
        r == keep_deepening_spec(evaluated, now as int, deadline as int, iter_start as int),
{
    if !evaluated {
        return false;
    }
    if now >= deadline {
        return false;
    }
    let last = if now >= iter_start {
        now - iter_start
    } else {
        0
    };
    let remaining = deadline - now;
    // 3 * last > remaining exactly when last > remaining / 3
    !(last > remaining / 3)
}

/// One round of iterative deepening: the result to keep and whether to
/// search one move deeper, given the result kept so far (`best`), the outcome
/// of this round's search (`None` when it ran out of time), whether that
/// search ran the static evaluation, and the clock readings of
/// `keep_deepening`. A search that finished is always kept, replacing what
/// was kept before, and deepening goes on only as `keep_deepening` says; a
/// search that ran out of time keeps the earlier result and ends the
/// deepening.
pub fn deepening_step(
    best: (i32, usize, usize),
    outcome: Option<(i32, usize, usize)>,
    evaluated: bool,
    now: u128,
    deadline: u128,
    iter_start: u128,
) -> (r: ((i32, usize, usize), bool))
    ensures
        match outcome {
            Some(found) => r.0 == found && r.1 == keep_deepening_spec(
                evaluated,
                now as int,
                deadline as int,
                iter_start as int,
            ),
            None => r.0 == best && !r.1,
        },
{
    match outcome {
        Some(found) => (found, keep_deepening(evaluated, now, deadline, iter_start)),
        None => (best, false),
    }
}

/// The agent that searches deeper and deeper until its time runs out.
pub struct SolutionAgent {}

impl SolutionAgent {
    /// Returns `(score, row, column)` for `player` to move. Searches one move
    /// deep, then two, and so on (see `minimax`), keeping the result of the
    /// deepest search that finished. Each search is handed the deadline
    /// `budget_parts(time_limit)` after the start; its root node is told
    /// whether that much time has already gone by, read from the clock as
    /// nanoseconds since the start (so with no time at all no search runs).
    /// After each search the clock is read and `deepening_step` keeps the
    /// search's result if it finished and decides whether to go on. Which
    /// searches finish depends on the clock, so the contract states what
    /// holds of every outcome: the result is the value of a finished search of some depth `d`
    /// (between 1 and the number of empty cells) with a move that reaches
    /// it, or, if no search finished, `0` and the first legal move. The board
    /// is left as it was.
    pub fn solve(board: &mut Board, player: Player, time_limit: u64) -> (r: (i32, usize, usize))
        requires
            old(board).wf(),
            !game_over_of(old(board)@),
        ensures
            final(board)@ == old(board)@,
            is_open(old(board)@, (r.1, r.2)),
            (r.0 == 0 && (r.1, r.2) == moves_of(old(board)@)[0]) || exists|d: nat|
                1 <= d <= num_empty(old(board)@) && r.0 == value5(old(board)@, player, d)
                    && #[trigger] child_value(old(board)@, player, d, (r.1, r.2)) == r.0,
            time_limit == 0 ==> r == (0i32, moves_of(old(board)@)[0].0, moves_of(old(board)@)[0].1),
    {
        let ghost g = board@;
        let start = instant_now();
        let (secs, nanos) = budget_parts(time_limit);
        let budget = duration_new(secs, nanos);
        let deadline = match instant_checked_add(&start, budget) {
            Some(d) => d,
            None => start,
        };
        let deadline_nanos: u128 = secs as u128 * 1_000_000_000 + nanos as u128;
        assert(deadline_nanos == budget_nanos(time_limit as int));
        let first_moves = board.moves();
        proof {
            lemma_moves_open(g);
            if moves_of(g).len() == 0 {
                assert(game_over_of(g));
            }
        }
        let mut best = (0, first_moves[0].0, first_moves[0].1);
        let mut depth: u32 = 1;
        let ghost e = num_empty(g);
        assert(e <= 2500) by {
            lemma_moves_open(g);
            crate::board::lemma_num_empty_bound(g);
        }
        loop
            invariant_except_break
                board.wf(),
                board@ == g,
                old(board)@ == g,
                wf_grid(g),
                !game_over_of(g),
                1 <= depth <= e,
                e == num_empty(g),
                e <= 2500,
                deadline_nanos == 0 ==> depth == 1,
            invariant
                board@ == g,
                deadline_nanos == budget_nanos(time_limit as int),
                deadline_nanos == 0 ==> best == (0i32, moves_of(g)[0].0, moves_of(g)[0].1),
                is_open(g, (best.1, best.2)),
                (best.0 == 0 && (best.1, best.2) == moves_of(g)[0]) || exists|d: nat|
                    1 <= d <= num_empty(g) && best.0 == value5(g, player, d)
                        && #[trigger] child_value(g, player, d, (best.1, best.2)) == best.0,
            decreases e - depth,
        {
            let iter_start = elapsed_nanos(&start);
            let mut heuristic_called = false;
            let root_now = elapsed_nanos(&start);
            let past_deadline = root_now >= deadline_nanos;
            let outcome = search_node(
                board,
                player,
                depth,
                i32::MIN,
                i32::MAX,
                &deadline,
                &mut heuristic_called,
                past_deadline,
            );
            proof {
                if let Some(result) = outcome {
                    lemma_value5_bounds(g, player, depth as nat);
                    assert(child_value(g, player, depth as nat, (result.1, result.2)) == result.0);
                }
            }
            let now = elapsed_nanos(&start);
            let (kept, go_on) = deepening_step(
                best,
                outcome,
                heuristic_called,
                now,
                deadline_nanos,
                iter_start,
            );
            best = kept;
            if !go_on {
                break;
            }
            depth = depth + 1;
        }
        best
    }
}

/// Law: a search deep enough to reach the end of the game everywhere gives
/// the exact value of the game, the one the full-tree agent computes for `X`
/// (with `X` maximizing and `O` minimizing the score).
pub proof fn lemma_deep_search_is_exact(g: Seq<Seq<Cell>>, p: Player, depth: nat)
    requires
        wf_grid(g),
        depth >= num_empty(g),
    ensures
        value5(g, p, depth) == minimax3(g, p, Player::X, p == Player::X, depth).0,
    decreases depth, 1nat, 0nat,
{
    if !game_over_of(g) && depth > 0 {
        lemma_deep_best_is_exact(g, p, depth, moves_of(g).len());
    }
}

proof fn lemma_deep_best_is_exact(g: Seq<Seq<Cell>>, p: Player, depth: nat, k: nat)
    requires
        wf_grid(g),
        depth >= num_empty(g),
        depth > 0,
        k <= moves_of(g).len(),
    ensures
        best5(g, p, depth, k) == best3(g, p, Player::X, p == Player::X, depth, k).0,
    decreases depth, 0nat, k,
{
    if k > 0 {
        lemma_deep_best_is_exact(g, p, depth, (k - 1) as nat);
        let m = moves_of(g)[k - 1];
        lemma_moves_open(g);
        assert(is_open(g, m));
        lemma_place_fills_one(g, m, p.piece());
        lemma_deep_search_is_exact(child(g, m, p), p.opponent(), (depth - 1) as nat);
    }
}

/// Law: exchanging `X` and `O` on the board exchanges their open-two counts.
pub proof fn lemma_open_twos_swap(g: Seq<Seq<Cell>>)
    requires
        wf_grid(g),
    ensures
        open_twos(swap_grid(g), Cell::O) == open_twos(g, Cell::X),
        open_twos(swap_grid(g), Cell::X) == open_twos(g, Cell::O),
{
    let h = swap_grid(g);
    let n = g.len() as int;
    lemma_swap_window(g, 0, 0, 0);
    assert forall|c: Cell, i: int|
        (c == Cell::X || c == Cell::O) && 0 <= i < n implies #[trigger] open_two_row(h, c, i)
        == open_two_row(g, swap_cell(c), i) by {
        assert forall|j: int| 0 <= j < n implies #[trigger] open_two_cell(h, c, i, j)
            == open_two_cell(g, swap_cell(c), i, j) by {
            assert forall|d: int| 0 <= d < 4 implies #[trigger] open_two_at(h, c, i, j, d)
                == open_two_at(g, swap_cell(c), i, j, d) by {
                lemma_swap_window(g, i, j, d);
            }
            lemma_sum_ext(
                4,
                |d: int| open_two_at(h, c, i, j, d),
                |d: int| open_two_at(g, swap_cell(c), i, j, d),
            );
        }
        lemma_sum_ext(
            n,
            |j: int| open_two_cell(h, c, i, j),
            |j: int| open_two_cell(g, swap_cell(c), i, j),
        );
    }
    lemma_sum_ext(n, |i: int| open_two_row(h, Cell::O, i), |i: int| open_two_row(g, Cell::X, i));
    lemma_sum_ext(n, |i: int| open_two_row(h, Cell::X, i), |i: int| open_two_row(g, Cell::O, i));
}

/// Exchanging `X` and `O` negates the position bonus of a cell.
proof fn lemma_alive_bonus_swap(g: Seq<Seq<Cell>>, i: int, j: int)
    requires
        wf_grid(g),
        in_bounds(g, i, j),
    ensures
        alive_bonus(swap_grid(g), i, j) == -alive_bonus(g, i, j),
{
    let h = swap_grid(g);
    assert forall|d: int| 0 <= d < 4 implies #[trigger] alive_dir(h, i, j, d) == alive_dir(g, i, j, d) by {
        assert forall|t: int| 0 <= t < 3 implies #[trigger] alive_at(h, i, j, d, t) == alive_at(
            g,
            i,
            j,
            d,
            t,
        ) by {
            lemma_swap_window(g, i + (t - 2) * dir_di(d), j + (t - 2) * dir_dj(d), d);
        }
        lemma_sum_ext(3, |t: int| alive_at(h, i, j, d, t), |t: int| alive_at(g, i, j, d, t));
    }
    lemma_sum_ext(4, |d: int| alive_dir(h, i, j, d), |d: int| alive_dir(g, i, j, d));
    assert(h[i][j] == swap_cell(g[i][j]));
}

/// Exchanging `X` and `O` negates the values of the lines from a cell.
proof fn lemma_window_cell_swap(g: Seq<Seq<Cell>>, i: int, j: int, two: int, one: int)
    requires
        wf_grid(g),
    ensures
        window_cell(swap_grid(g), i, j, two, one) == -window_cell(g, i, j, two, one),
{
    let h = swap_grid(g);
    assert forall|d: int| 0 <= d < 4 implies #[trigger] window_score(h, i, j, d, two, one)
        == -window_score(g, i, j, d, two, one) by {
        lemma_swap_window(g, i, j, d);
    }
    lemma_sum_neg(
        4,
        |d: int| window_score(h, i, j, d, two, one),
        |d: int| window_score(g, i, j, d, two, one),
    );
}

/// Exchanging `X` and `O` negates the sum of the position bonuses.
proof fn lemma_alive_term_swap(g: Seq<Seq<Cell>>)
    requires
        wf_grid(g),
    ensures
        alive_term(swap_grid(g)) == -alive_term(g),
{
    let h = swap_grid(g);
    let n = g.len() as int;
    lemma_swap_window(g, 0, 0, 0);
    assert forall|i: int| 0 <= i < n implies #[trigger] alive_row(h, i) == -alive_row(g, i) by {
        assert forall|j: int| 0 <= j < n implies #[trigger] alive_bonus(h, i, j) == -alive_bonus(
            g,
            i,
            j,
        ) by {
            lemma_alive_bonus_swap(g, i, j);
        }
        lemma_sum_neg(n, |j: int| alive_bonus(h, i, j), |j: int| alive_bonus(g, i, j));
    }
    lemma_sum_neg(n, |i: int| alive_row(h, i), |i: int| alive_row(g, i));
}

/// Exchanging `X` and `O` negates the sum of the line values.
proof fn lemma_window_term_swap(g: Seq<Seq<Cell>>, two: int, one: int)
    requires
        wf_grid(g),
    ensures
        window_term(swap_grid(g), two, one) == -window_term(g, two, one),
{
    let h = swap_grid(g);
    let n = g.len() as int;
    lemma_swap_window(g, 0, 0, 0);
    assert forall|i: int| 0 <= i < n implies #[trigger] window_row(h, i, two, one) == -window_row(
        g,
        i,
        two,
        one,
    ) by {
        assert forall|j: int| 0 <= j < n implies #[trigger] window_cell(h, i, j, two, one)
            == -window_cell(g, i, j, two, one) by {
            lemma_window_cell_swap(g, i, j, two, one);
        }
        lemma_sum_neg(
            n,
            |j: int| window_cell(h, i, j, two, one),
            |j: int| window_cell(g, i, j, two, one),
        );
    }
    lemma_sum_neg(n, |i: int| window_row(h, i, two, one), |i: int| window_row(g, i, two, one));
}

/// Law: the static evaluation is antisymmetric in the two players:
/// exchanging `X` and `O` on the board negates it (positive favors `X`,
/// negative favors `O`).
pub proof fn lemma_heuristic_antisymmetric(g: Seq<Seq<Cell>>)
    requires
        wf_grid(g),
    ensures
        heuristic_of(swap_grid(g)) == -heuristic_of(g),
{
    let h = swap_grid(g);
    let n = g.len() as int;
    lemma_swap_window(g, 0, 0, 0);
    lemma_swap_moves(g);
    lemma_swap_score(g);
    lemma_open_twos_swap(g);
    let e = num_empty(g);
    let s = score_of(g);
    if e <= 4 {
        assert((-s) * 1000 == -(s * 1000)) by (nonlinear_arith);
    } else {
        let (tw, two, one) = weights(e, n * n);
        lemma_alive_term_swap(g);
        lemma_window_term_swap(g, two, one);
        assert((-s) * tw == -(s * tw)) by (nonlinear_arith);
    }
}

/// The weight of one completed line of three in the static evaluation of a
/// board of `total` cells with `empty` of them empty: 1000 near the end (at
/// most four empty cells), 100 while more than a third of the board is
/// empty, 150 after that.
pub open spec fn line_weight(empty: int, total: int) -> int {
    if empty <= 4 {
        1000
    } else if empty > total / 3 {
        100
    } else {
        150
    }
}

/// Law: completed lines of three count in the static evaluation at the
/// weight of the stage of the game. Of two boards of one size and with as
/// many empty cells, whose position bonuses, line values and open twos agree,
/// the evaluations differ by that weight times the difference of their scores
/// (lines of `X` less lines of `O`); so one more completed line of `X` raises
/// the evaluation.
pub proof fn lemma_heuristic_weighs_completed_lines(g1: Seq<Seq<Cell>>, g2: Seq<Seq<Cell>>)
    requires
        wf_grid(g1),
        wf_grid(g2),
        g1.len() == g2.len(),
        num_empty(g1) == num_empty(g2),
        alive_term(g1) == alive_term(g2),
        ({
            let w = weights(num_empty(g1), (g1.len() * g1.len()) as int);
            window_term(g1, w.1, w.2) == window_term(g2, w.1, w.2)
        }),
        open_twos(g1, Cell::X) == open_twos(g2, Cell::X),
        open_twos(g1, Cell::O) == open_twos(g2, Cell::O),
    ensures
        heuristic_of(g1) - heuristic_of(g2) == line_weight(num_empty(g1), (g1.len() * g1.len()) as int) * (
        score_of(g1) - score_of(g2)),
        score_of(g1) > score_of(g2) ==> heuristic_of(g1) > heuristic_of(g2),
{
    let e = num_empty(g1);
    let n = g1.len() as int;
    let lw = line_weight(e, n * n);
    let s1 = score_of(g1);
    let s2 = score_of(g2);
    assert(lw > 0);
    if e <= 4 {
        assert(s1 * 1000 - s2 * 1000 == 1000 * (s1 - s2)) by (nonlinear_arith);
    } else {
        let w = weights(e, n * n);
        assert(w.0 == lw);
        assert(s1 * lw - s2 * lw == lw * (s1 - s2)) by (nonlinear_arith);
    }
    assert(s1 > s2 ==> lw * (s1 - s2) > 0) by (nonlinear_arith)
        requires
            lw > 0,
    ;
}

/// Two of the three cells hold `t` and the remaining one is empty.
pub open spec fn two_and_gap(a: Cell, b: Cell, c: Cell, t: Cell) -> bool {
    ||| (a == t && b == t && c == Cell::Empty)
    ||| (a == t && b == Cell::Empty && c == t)
    ||| (a == Cell::Empty && b == t && c == t)
}

/// The three cells from `(i, j)` in steps of `(di, dj)`, one of the four line
/// directions (across, down, down-right, down-left), lie on the board and
/// hold two `t` and one empty cell.
pub open spec fn open_line(g: Seq<Seq<Cell>>, t: Cell, i: int, j: int, di: int, dj: int) -> bool {
    &&& ((di == 0 && dj == 1) || (di == 1 && dj == 0) || (di == 1 && dj == 1) || (di == 1 && dj
        == -1))
    &&& 0 <= i < g.len() && 0 <= j < g.len()
    &&& 0 <= i + 2 * di < g.len() && 0 <= j + 2 * dj < g.len()
    &&& two_and_gap(g[i][j], g[i + di][j + dj], g[i + 2 * di][j + 2 * dj], t)
}

/// A sum of terms that are not negative is at least each of its terms.
proof fn lemma_sum_ge_term(n: int, f: spec_fn(int) -> int, k: int)
    requires
        0 <= k < n,
        forall|m: int| 0 <= m < n ==> 0 <= #[trigger] f(m),
    ensures
        sum(n, f) >= f(k),
    decreases n,
{
    if k < n - 1 {
        lemma_sum_ge_term(n - 1, f, k);
    } else {
        lemma_sum_nonneg(n - 1, f);
    }
}

/// A sum of terms that are not negative is not negative.
proof fn lemma_sum_nonneg(n: int, f: spec_fn(int) -> int)
    requires
        forall|m: int| 0 <= m < n ==> 0 <= #[trigger] f(m),
    ensures
        sum(n, f) >= 0,
    decreases n,
{
    if n > 0 {
        lemma_sum_nonneg(n - 1, f);
    }
}

/// The line from `(i, j)` in direction `d` counts as an open two exactly
/// when it is an open line of `t`.
proof fn lemma_open_two_at_is_open_line(g: Seq<Seq<Cell>>, t: Cell, i: int, j: int, d: int)
    requires
        wf_grid(g),
        t == Cell::X || t == Cell::O,
        0 <= d < 4,
    ensures
        open_two_at(g, t, i, j, d) == if open_line(g, t, i, j, dir_di(d), dir_dj(d)) {
            1int
        } else {
            0int
        },
{
    if in_bounds(g, i, j) && in_bounds(g, i + 2 * dir_di(d), j + 2 * dir_dj(d)) {
        assert(in_bounds(g, i + dir_di(d), j + dir_dj(d)));
    }
}

/// Law: a side has an open two (a line of three, in any of the four
/// directions, holding two of its pieces and an empty cell) exactly when its
/// count of open twos is positive; the count is never negative.
pub proof fn lemma_open_twos_found(g: Seq<Seq<Cell>>, t: Cell)
    requires
        wf_grid(g),
        t == Cell::X || t == Cell::O,
    ensures
        open_twos(g, t) >= 0,
        open_twos(g, t) > 0 <==> exists|i: int, j: int, di: int, dj: int|
            open_line(g, t, i, j, di, dj),
{
    let n = g.len() as int;
    assert forall|i: int, j: int, d: int| 0 <= d < 4 implies 0 <= #[trigger] open_two_at(g, t, i, j, d)
        <= 1 by {
        lemma_open_two_at_is_open_line(g, t, i, j, d);
    }
    assert forall|i: int, j: int| 0 <= #[trigger] open_two_cell(g, t, i, j) <= 4 by {
        lemma_sum_bounds(4, |d: int| open_two_at(g, t, i, j, d), 0, 1);
    }
    assert forall|i: int| 0 <= #[trigger] open_two_row(g, t, i) <= n * 4 by {
        lemma_sum_bounds(n, |j: int| open_two_cell(g, t, i, j), 0, 4);
    }
    lemma_sum_bounds(n, |i: int| open_two_row(g, t, i), 0, n * 4);
    if exists|i: int, j: int, di: int, dj: int| open_line(g, t, i, j, di, dj) {
        let (i, j, di, dj) = choose|i: int, j: int, di: int, dj: int| open_line(g, t, i, j, di, dj);
        let d: int = if di == 0 {
            0
        } else if dj == 0 {
            1
        } else if dj == 1 {
            2
        } else {
            3
        };
        assert(dir_di(d) == di && dir_dj(d) == dj);
        lemma_open_two_at_is_open_line(g, t, i, j, d);
        lemma_sum_ge_term(4, |d: int| open_two_at(g, t, i, j, d), d);
        lemma_sum_ge_term(n, |j: int| open_two_cell(g, t, i, j), j);
        lemma_sum_ge_term(n, |i: int| open_two_row(g, t, i), i);
    } else {
        assert forall|i: int| 0 <= i < n implies #[trigger] open_two_row(g, t, i) == 0 by {
            assert forall|j: int| 0 <= j < n implies #[trigger] open_two_cell(g, t, i, j) == 0 by {
                assert forall|d: int| 0 <= d < 4 implies #[trigger] open_two_at(g, t, i, j, d) == 0 by {
                    lemma_open_two_at_is_open_line(g, t, i, j, d);
                    if open_line(g, t, i, j, dir_di(d), dir_dj(d)) {
                        assert(exists|i: int, j: int, di: int, dj: int| open_line(g, t, i, j, di, dj));
                    }
                }
                lemma_sum_bounds(4, |d: int| open_two_at(g, t, i, j, d), 0, 0);
            }
            lemma_sum_bounds(n, |j: int| open_two_cell(g, t, i, j), 0, 0);
        }
        lemma_sum_bounds(n, |i: int| open_two_row(g, t, i), 0, 0);
    }
}

} // verus!
